//! IEEE 754 binary64 rounding stated over integers: the value nearest a
//! positive rational (ties to even), as `f64` parsing, conversion and
//! arithmetic produce it, computed exactly on natural numbers of any size.
use vstd::prelude::*;

use vstd::arithmetic::div_mod::lemma_fundamental_div_mod_converse;

verus! {

/// `2^n`.
pub open spec fn p2(n: nat) -> nat
    decreases n,
{
    if n == 0 {
        1
    } else {
        2 * p2((n - 1) as nat)
    }
}

pub proof fn lemma_p2_pos(n: nat)
    ensures
        p2(n) >= 1,
    decreases n,
{
    if n > 0 {
        lemma_p2_pos((n - 1) as nat);
    }
}

pub proof fn lemma_p2_adds(a: nat, b: nat)
    ensures
        p2(a + b) == p2(a) * p2(b),
    decreases b,
{
    if b > 0 {
        let b1 = (b - 1) as nat;
        lemma_p2_adds(a, b1);
        assert(p2(a + b) == 2 * p2((a + b - 1) as nat));
        assert((a + b - 1) as nat == a + b1);
        assert(p2(b) == 2 * p2(b1));
        let x = p2(a);
        let y = p2(b1);
        assert(p2(a + b1) == x * y);
        assert(x * (2 * y) == 2 * (x * y)) by (nonlinear_arith);
        assert(p2(a + b) == 2 * p2(a + b1));
        assert(p2(a + b) == x * p2(b));
    } else {
        assert(p2(b) == 1);
        assert(a + b == a);
        assert(p2(a) * 1 == p2(a));
    }
}

pub proof fn lemma_p2_mono(a: nat, b: nat)
    requires
        a <= b,
    ensures
        p2(a) <= p2(b),
    decreases b,
{
    if a < b {
        lemma_p2_mono(a, (b - 1) as nat);
        lemma_p2_pos((b - 1) as nat);
    }
}

pub proof fn lemma_p2_values()
    ensures
        p2(32) == 0x1_0000_0000,
        p2(52) == 0x10_0000_0000_0000,
        p2(53) == 0x20_0000_0000_0000,
        p2(63) == 0x8000_0000_0000_0000,
        p2(64) == 0x1_0000_0000_0000_0000,
{
    reveal_with_fuel(p2, 65);
}

/// Powers of two for numbers of up to 128 bits.
pub proof fn lemma_p2_wide()
    ensures
        p2(74) == 0x400_0000_0000_0000_0000,
        p2(100) == 0x10_0000_0000_0000_0000_0000_0000,
        p2(101) == 0x20_0000_0000_0000_0000_0000_0000,
{
    reveal_with_fuel(p2, 102);
}

/// The weight of limb `n`: `2^(32·n)`.
pub open spec fn limb_weight(n: nat) -> nat {
    p2(32 * n)
}

proof fn lemma_limb_weight_next(n: nat)
    ensures
        limb_weight(n + 1) == limb_weight(n) * 0x1_0000_0000,
        limb_weight(n) >= 1,
{
    lemma_p2_adds(32 * n, 32);
    lemma_p2_values();
    lemma_p2_pos(32 * n);
    assert(32 * (n + 1) == 32 * n + 32);
}

/// The number written by little-endian 32-bit limbs.
pub open spec fn big_val(s: Seq<u32>) -> nat
    decreases s.len(),
{
    if s.len() == 0 {
        0
    } else {
        big_val(s.drop_last()) + s.last() as nat * limb_weight((s.len() - 1) as nat)
    }
}

/// A number below the weight of its length.
proof fn lemma_big_val_bound(s: Seq<u32>)
    ensures
        big_val(s) < limb_weight(s.len()),
    decreases s.len(),
{
    if s.len() == 0 {
        reveal_with_fuel(p2, 1);
    } else {
        let n = (s.len() - 1) as nat;
        lemma_big_val_bound(s.drop_last());
        lemma_limb_weight_next(n);
        let w = limb_weight(n);
        assert(big_val(s.drop_last()) + s.last() as nat * w < w * 0x1_0000_0000) by (nonlinear_arith)
            requires
                big_val(s.drop_last()) < w,
                s.last() < 0x1_0000_0000,
        ;
    }
}

proof fn lemma_big_val_push(s: Seq<u32>, x: u32)
    ensures
        big_val(s.push(x)) == big_val(s) + x as nat * limb_weight(s.len()),
{
    assert(s.push(x).drop_last() =~= s);
}

/// `a · m + c`.
pub fn big_mul_add(a: &Vec<u32>, m: u64, c: u64) -> (r: Vec<u32>)
    ensures
        big_val(r@) == big_val(a@) * m + c,
{
    let mut r: Vec<u32> = Vec::new();
    let mut carry: u128 = c as u128;
    let mut i: usize = 0;
    assert(a@.subrange(0, 0) =~= Seq::<u32>::empty());
    assert(r@ =~= Seq::<u32>::empty());
    proof {
        reveal_with_fuel(p2, 1);
        assert(limb_weight(0) == 1);
        assert(big_val(Seq::<u32>::empty()) == 0);
        assert(carry * limb_weight(0) == c);
        assert(big_val(a@.subrange(0, 0)) * m == 0);
    }
    while i < a.len()
        invariant
            i <= a.len(),
            r@.len() == i,
            carry < 0x1_0000_0000_0000_0000,
            big_val(r@) + carry * limb_weight(i as nat) == big_val(a@.subrange(0, i as int)) * m + c,
        decreases a.len() - i,
    {
        let ai = a[i];
        assert((ai as int) * (m as int) <= 0xffff_fffe_ffff_ffff_0000_0001) by (nonlinear_arith)
            requires
                ai < 0x1_0000_0000,
                m < 0x1_0000_0000_0000_0000,
        ;
        let prod: u128 = (ai as u128) * (m as u128);
        let t: u128 = prod + carry;
        let lo: u32 = (t % 0x1_0000_0000) as u32;
        let hi: u128 = t / 0x1_0000_0000;
        let ghost pre = a@.subrange(0, i as int);
        let ghost next = a@.subrange(0, i + 1);
        proof {
            assert(next.drop_last() =~= pre);
            assert(next.last() == a@[i as int]);
            lemma_big_val_push(r@, lo);
            lemma_limb_weight_next(i as nat);
            let w = limb_weight(i as nat);
            assert(big_val(next) == big_val(pre) + a@[i as int] as nat * w);
            assert(t == lo + hi * 0x1_0000_0000);
            assert(big_val(r@) + lo * w + hi * (w * 0x1_0000_0000) == big_val(next) * m + c) by (
            nonlinear_arith)
                requires
                    big_val(r@) + carry * w == big_val(pre) * m + c,
                    big_val(next) == big_val(pre) + a@[i as int] as nat * w,
                    t == a@[i as int] * m + carry,
                    t == lo + hi * 0x1_0000_0000,
            ;
        }
        r.push(lo);
        carry = hi;
        i = i + 1;
    }
    assert(a@.subrange(0, i as int) =~= a@);
    let n = r.len();
    let lo: u32 = (carry % 0x1_0000_0000) as u32;
    let hi: u32 = (carry / 0x1_0000_0000) as u32;
    proof {
        lemma_big_val_push(r@, lo);
        lemma_big_val_push(r@.push(lo), hi);
        lemma_limb_weight_next(n as nat);
        let w = limb_weight(n as nat);
        assert(lo * w + hi * (w * 0x1_0000_0000) == carry * w) by (nonlinear_arith)
            requires
                carry == lo + hi * 0x1_0000_0000,
        ;
    }
    r.push(lo);
    r.push(hi);
    r
}

/// A number from a machine word.
pub fn big_from(x: u64) -> (r: Vec<u32>)
    ensures
        big_val(r@) == x,
{
    let z: Vec<u32> = Vec::new();
    assert(big_val(z@) == 0);
    big_mul_add(&z, 0, x)
}

/// `a · 10^n`.
pub fn big_mul_pow10(a: &Vec<u32>, n: u128) -> (r: Vec<u32>)
    ensures
        big_val(r@) == big_val(a@) * crate::asc::syntax::pow10(n as nat),
{
    let mut r = big_mul_add(a, 1, 0);
    let mut i: u128 = 0;
    while i < n
        invariant
            i <= n,
            big_val(r@) == big_val(a@) * crate::asc::syntax::pow10(i as nat),
        decreases n - i,
    {
        let ghost before = big_val(r@);
        r = big_mul_add(&r, 10, 0);
        proof {
            let x = big_val(a@);
            let p = crate::asc::syntax::pow10(i as nat);
            assert(crate::asc::syntax::pow10((i + 1) as nat) == 10 * p);
            assert(x * p * 10 == x * (10 * p)) by (nonlinear_arith);
        }
        i = i + 1;
    }
    r
}

/// `a · 2^n`.
pub fn big_mul_p2(a: &Vec<u32>, n: u32) -> (r: Vec<u32>)
    ensures
        big_val(r@) == big_val(a@) * p2(n as nat),
{
    let mut r = big_mul_add(a, 1, 0);
    let mut i: u32 = 0;
    while i < n
        invariant
            i <= n,
            big_val(r@) == big_val(a@) * p2(i as nat),
        decreases n - i,
    {
        r = big_mul_add(&r, 2, 0);
        proof {
            let x = big_val(a@);
            let p = p2(i as nat);
            assert(p2((i + 1) as nat) == 2 * p);
            assert(x * p * 2 == x * (2 * p)) by (nonlinear_arith);
        }
        i = i + 1;
    }
    r
}

/// How two numbers compare.
#[derive(Debug, Clone, Copy, PartialEq, Eq, Structural)]
pub enum Relation {
    Below,
    Same,
    Above,
}

/// The number with zero limbs added on top, up to `n` limbs.
fn big_padded(a: &Vec<u32>, n: usize) -> (r: Vec<u32>)
    requires
        a.len() <= n,
    ensures
        r@.len() == n,
        big_val(r@) == big_val(a@),
{
    let mut r = a.clone();
    assert(r@ =~= a@);
    while r.len() < n
        invariant
            r@.len() <= n,
            big_val(r@) == big_val(a@),
        decreases n - r@.len(),
    {
        proof {
            lemma_big_val_push(r@, 0);
        }
        r.push(0);
    }
    r
}

/// Compares two numbers.
pub fn big_compare(a: &Vec<u32>, b: &Vec<u32>) -> (r: Relation)
    ensures
        (r == Relation::Below) == (big_val(a@) < big_val(b@)),
        (r == Relation::Same) == (big_val(a@) == big_val(b@)),
        (r == Relation::Above) == (big_val(a@) > big_val(b@)),
{
    let n = if a.len() < b.len() {
        b.len()
    } else {
        a.len()
    };
    let x = big_padded(a, n);
    let y = big_padded(b, n);
    let mut i: usize = n;
    assert(x@.subrange(0, n as int) =~= x@);
    assert(y@.subrange(0, n as int) =~= y@);
    while i > 0
        invariant
            i <= n,
            x@.len() == n,
            y@.len() == n,
            big_val(x@) == big_val(a@),
            big_val(y@) == big_val(b@),
            (big_val(x@.subrange(0, i as int)) < big_val(y@.subrange(0, i as int))) == (big_val(x@)
                < big_val(y@)),
            (big_val(x@.subrange(0, i as int)) == big_val(y@.subrange(0, i as int))) == (big_val(x@)
                == big_val(y@)),
        decreases i,
    {
        let ghost xs = x@.subrange(0, i as int);
        let ghost ys = y@.subrange(0, i as int);
        let ghost xl = x@.subrange(0, i - 1);
        let ghost yl = y@.subrange(0, i - 1);
        proof {
            assert(xs.drop_last() =~= xl);
            assert(ys.drop_last() =~= yl);
            assert(xs.last() == x@[i - 1]);
            assert(ys.last() == y@[i - 1]);
            lemma_big_val_bound(xl);
            lemma_big_val_bound(yl);
        }
        let ghost w = limb_weight((i - 1) as nat);
        if x[i - 1] < y[i - 1] {
            assert(big_val(xs) < big_val(ys)) by (nonlinear_arith)
                requires
                    big_val(xs) == big_val(xl) + x@[i - 1] as nat * w,
                    big_val(ys) == big_val(yl) + y@[i - 1] as nat * w,
                    big_val(xl) < w,
                    big_val(yl) >= 0,
                    x@[i - 1] < y@[i - 1],
            ;
            return Relation::Below;
        }
        if x[i - 1] > y[i - 1] {
            assert(big_val(xs) > big_val(ys)) by (nonlinear_arith)
                requires
                    big_val(xs) == big_val(xl) + x@[i - 1] as nat * w,
                    big_val(ys) == big_val(yl) + y@[i - 1] as nat * w,
                    big_val(yl) < w,
                    big_val(xl) >= 0,
                    x@[i - 1] > y@[i - 1],
            ;
            return Relation::Above;
        }
        i = i - 1;
    }
    assert(x@.subrange(0, 0) =~= Seq::<u32>::empty());
    assert(y@.subrange(0, 0) =~= Seq::<u32>::empty());
    Relation::Same
}

/// `p · 2^s` when `s` is not negative, else `p`: the numerator of
/// `p/q · 2^s`.
pub open spec fn num_at(p: nat, s: int) -> nat {
    if s >= 0 {
        p * p2(s as nat)
    } else {
        p
    }
}

/// `q` when `s` is not negative, else `q · 2^(−s)`: the denominator of
/// `p/q · 2^s`.
pub open spec fn den_at(q: nat, s: int) -> nat {
    if s >= 0 {
        q
    } else {
        q * p2((-s) as nat)
    }
}

/// `p/q · 2^s` lies in `[2^52, 2^53)`: scaled by `2^s`, the ratio has the
/// 53 bits of a binary64 significand before its point.
pub open spec fn in_window(p: nat, q: nat, s: int) -> bool {
    &&& p2(52) * den_at(q, s) <= num_at(p, s)
    &&& num_at(p, s) < p2(53) * den_at(q, s)
}

/// The exponent of the binary64 value nearest `p/q`: the power of two
/// that brings the ratio's leading bit to bit 52, but not below `−1074`
/// (the subnormal range).
pub open spec fn bin_exp(p: nat, q: nat) -> int {
    if exists|s: int| in_window(p, q, s) {
        let s = choose|s: int| in_window(p, q, s);
        if s <= 1074 {
            -s
        } else {
            -1074
        }
    } else {
        -1074
    }
}

/// `n / d` rounded to the nearest whole number, ties to even.
pub open spec fn round_even(n: nat, d: nat) -> nat {
    let f = n / d;
    let r = n % d;
    if 2 * r > d || (2 * r == d && f % 2 == 1) {
        f + 1
    } else {
        f
    }
}

/// The binary64 value nearest `p/q` (`p`, `q` at least 1), rounding ties
/// to an even significand, as its significand `m` and exponent `e` (the
/// value is `m · 2^e`); `None` where the value rounds to infinity
/// (`2^1024` or more).
pub open spec fn nearest(p: nat, q: nat) -> Option<(nat, int)> {
    let e = bin_exp(p, q);
    let m = round_even(num_at(p, -e), den_at(q, -e));
    if e > 971 || (e == 971 && m >= p2(53)) {
        None
    } else {
        Some((m, e))
    }
}

/// The numerator of `m · 2^e`.
pub open spec fn value_num(m: nat, e: int) -> nat {
    num_at(m, e)
}

/// The denominator of `m · 2^e`.
pub open spec fn value_den(e: int) -> nat {
    den_at(1, e)
}

pub proof fn lemma_at_zero(p: nat, q: nat)
    ensures
        num_at(p, 0) == p,
        den_at(q, 0) == q,
{
    assert(p2(0) == 1);
    assert(p * 1 == p);
}

pub proof fn lemma_at_pos(p: nat, q: nat, s: int)
    requires
        p >= 1,
        q >= 1,
    ensures
        num_at(p, s) >= 1,
        den_at(q, s) >= 1,
{
    if s >= 0 {
        lemma_p2_pos(s as nat);
        assert(p * p2(s as nat) >= 1) by (nonlinear_arith)
            requires
                p >= 1,
                p2(s as nat) >= 1,
        ;
    } else {
        lemma_p2_pos((-s) as nat);
        assert(q * p2((-s) as nat) >= 1) by (nonlinear_arith)
            requires
                q >= 1,
                p2((-s) as nat) >= 1,
        ;
    }
}

/// One step up in the scale doubles the ratio.
proof fn lemma_step(p: nat, q: nat, s: int)
    ensures
        num_at(p, s + 1) * den_at(q, s) == 2 * (num_at(p, s) * den_at(q, s + 1)),
{
    if s >= 0 {
        assert(p2((s + 1) as nat) == 2 * p2(s as nat));
        assert(p * (2 * p2(s as nat)) * q == 2 * (p * p2(s as nat) * q)) by (nonlinear_arith);
    } else if s == -1 {
        assert(p2(1) == 2 * p2(0));
        assert(p2(0) == 1);
        assert(p * (q * 2) == 2 * (p * q)) by (nonlinear_arith);
    } else {
        assert(p2((-s) as nat) == 2 * p2((-(s + 1)) as nat));
        assert(p * (q * (2 * p2((-(s + 1)) as nat))) == 2 * (p * (q * p2((-(s + 1)) as nat))))
            by (nonlinear_arith);
    }
}

/// A lower bound on the ratio grows with the scale.
proof fn lemma_above_up(p: nat, q: nat, s: int, j: nat, c: nat)
    requires
        p >= 1,
        q >= 1,
        c * den_at(q, s) <= num_at(p, s),
    ensures
        c * p2(j) * den_at(q, s + j) <= num_at(p, s + j),
    decreases j,
{
    if j == 0 {
        assert(p2(0) == 1);
        assert(c * 1 == c);
    } else {
        let t = s + j - 1;
        lemma_above_up(p, q, s, (j - 1) as nat, c);
        lemma_step(p, q, t);
        lemma_at_pos(p, q, t);
        lemma_at_pos(p, q, t + 1);
        let k = c * p2((j - 1) as nat);
        assert(p2(j) == 2 * p2((j - 1) as nat));
        assert(c * p2(j) == 2 * k) by (nonlinear_arith)
            requires
                p2(j) == 2 * p2((j - 1) as nat),
                k == c * p2((j - 1) as nat),
        ;
        assert((2 * k) * den_at(q, t + 1) <= num_at(p, t + 1)) by (nonlinear_arith)
            requires
                k * den_at(q, t) <= num_at(p, t),
                num_at(p, t + 1) * den_at(q, t) == 2 * (num_at(p, t) * den_at(q, t + 1)),
                den_at(q, t) >= 1,
                den_at(q, t + 1) >= 1,
        ;
        assert(s + j == t + 1);
    }
}

/// An upper bound on the ratio grows with the scale.
proof fn lemma_below_up(p: nat, q: nat, s: int, j: nat, c: nat)
    requires
        p >= 1,
        q >= 1,
        num_at(p, s) < c * den_at(q, s),
    ensures
        num_at(p, s + j) < c * p2(j) * den_at(q, s + j),
    decreases j,
{
    if j == 0 {
        assert(p2(0) == 1);
        assert(c * 1 == c);
    } else {
        let t = s + j - 1;
        lemma_below_up(p, q, s, (j - 1) as nat, c);
        lemma_step(p, q, t);
        lemma_at_pos(p, q, t);
        lemma_at_pos(p, q, t + 1);
        let k = c * p2((j - 1) as nat);
        assert(p2(j) == 2 * p2((j - 1) as nat));
        assert(c * p2(j) == 2 * k) by (nonlinear_arith)
            requires
                p2(j) == 2 * p2((j - 1) as nat),
                k == c * p2((j - 1) as nat),
        ;
        assert(num_at(p, t + 1) < (2 * k) * den_at(q, t + 1)) by (nonlinear_arith)
            requires
                num_at(p, t) < k * den_at(q, t),
                num_at(p, t + 1) * den_at(q, t) == 2 * (num_at(p, t) * den_at(q, t + 1)),
                den_at(q, t) >= 1,
                den_at(q, t + 1) >= 1,
        ;
        assert(s + j == t + 1);
    }
}

/// At most one scale puts the ratio in the window.
proof fn lemma_window_unique(p: nat, q: nat, s1: int, s2: int)
    requires
        p >= 1,
        q >= 1,
        in_window(p, q, s1),
        in_window(p, q, s2),
    ensures
        s1 == s2,
{
    if s1 < s2 {
        lemma_window_order(p, q, s1, s2);
    } else if s2 < s1 {
        lemma_window_order(p, q, s2, s1);
    }
}

proof fn lemma_window_order(p: nat, q: nat, s1: int, s2: int)
    requires
        p >= 1,
        q >= 1,
        s1 < s2,
        p2(52) * den_at(q, s1) <= num_at(p, s1),
    ensures
        !(num_at(p, s2) < p2(53) * den_at(q, s2)),
{
    let j = (s2 - s1) as nat;
    lemma_above_up(p, q, s1, j, p2(52));
    lemma_p2_mono(1, j);
    lemma_p2_values();
    reveal_with_fuel(p2, 2);
    lemma_at_pos(p, q, s2);
    assert(p2(52) * p2(j) * den_at(q, s2) >= p2(53) * den_at(q, s2)) by (nonlinear_arith)
        requires
            p2(j) >= 2,
            p2(53) == 2 * p2(52),
            den_at(q, s2) >= 1,
    ;
    assert(s1 + j == s2);
}

proof fn lemma_window_down(p: nat, q: nat, s: int)
    requires
        p >= 1,
        q >= 1,
        s <= 0,
        p2(52) * den_at(q, s) <= num_at(p, s),
    ensures
        exists|t: int| in_window(p, q, t),
    decreases (num_at(p, s) - den_at(q, s)) as nat,
{
    lemma_p2_values();
    lemma_at_pos(p, q, s);
    if num_at(p, s) < p2(53) * den_at(q, s) {
        assert(in_window(p, q, s));
    } else {
        lemma_step(p, q, s - 1);
        lemma_at_pos(p, q, s - 1);
        lemma_at_zero(p, q);
        assert(num_at(p, s) == num_at(p, s - 1));
        assert(den_at(q, s - 1) == 2 * den_at(q, s)) by (nonlinear_arith)
            requires
                num_at(p, s) * den_at(q, s - 1) == 2 * (num_at(p, s - 1) * den_at(q, s)),
                num_at(p, s) == num_at(p, s - 1),
                num_at(p, s) >= 1,
        ;
        assert(num_at(p, s) > den_at(q, s - 1));
        lemma_window_down(p, q, s - 1);
    }
}

proof fn lemma_window_up(p: nat, q: nat, s: int)
    requires
        p >= 1,
        q >= 1,
        s >= 0,
        num_at(p, s) < p2(53) * den_at(q, s),
    ensures
        exists|t: int| in_window(p, q, t),
    decreases (p2(53) * q - num_at(p, s)) as nat,
{
    lemma_p2_values();
    lemma_at_pos(p, q, s);
    if p2(52) * den_at(q, s) <= num_at(p, s) {
        assert(in_window(p, q, s));
    } else {
        assert(p2((s + 1) as nat) == 2 * p2(s as nat));
        assert(num_at(p, s + 1) == 2 * num_at(p, s)) by (nonlinear_arith)
            requires
                num_at(p, s + 1) == p * p2((s + 1) as nat),
                num_at(p, s) == p * p2(s as nat),
                p2((s + 1) as nat) == 2 * p2(s as nat),
        ;
        lemma_window_up(p, q, s + 1);
    }
}

/// Every positive ratio has a scale that puts it in the window.
proof fn lemma_window_exists(p: nat, q: nat)
    requires
        p >= 1,
        q >= 1,
    ensures
        exists|t: int| in_window(p, q, t),
{
    lemma_p2_values();
    lemma_at_zero(p, q);
    if p2(52) * q <= p {
        lemma_window_down(p, q, 0);
    } else {
        reveal_with_fuel(p2, 1);
        lemma_window_up(p, q, 0);
    }
}

proof fn lemma_bin_exp_normal(p: nat, q: nat, s: int)
    requires
        p >= 1,
        q >= 1,
        s <= 1074,
        in_window(p, q, s),
    ensures
        bin_exp(p, q) == -s,
{
    let t = choose|t: int| in_window(p, q, t);
    lemma_window_unique(p, q, s, t);
}

pub proof fn lemma_bin_exp_subnormal(p: nat, q: nat)
    requires
        p >= 1,
        q >= 1,
        num_at(p, 1074) < p2(52) * den_at(q, 1074),
    ensures
        bin_exp(p, q) == -1074,
{
    if exists|t: int| in_window(p, q, t) {
        let t = choose|t: int| in_window(p, q, t);
        if t <= 1074 {
            let j = (1074 - t) as nat;
            lemma_above_up(p, q, t, j, p2(52));
            lemma_p2_pos(j);
            lemma_at_pos(p, q, 1074);
            assert(p2(52) * p2(j) * den_at(q, 1074) >= p2(52) * den_at(q, 1074)) by (nonlinear_arith)
                requires
                    p2(j) >= 1,
                    den_at(q, 1074) >= 1,
            ;
            assert(t + j == 1074);
        }
    }
}

pub proof fn lemma_bin_exp_overflow(p: nat, q: nat, s: int)
    requires
        p >= 1,
        q >= 1,
        s <= -972,
        p2(53) * den_at(q, s) <= num_at(p, s),
    ensures
        bin_exp(p, q) > 971,
{
    lemma_window_exists(p, q);
    let t = choose|t: int| in_window(p, q, t);
    lemma_p2_values();
    lemma_at_pos(p, q, s);
    if t > s {
        assert(p2(52) * den_at(q, s) <= num_at(p, s));
        lemma_window_order(p, q, s, t);
    }
}

/// A value of the normal range comes from a window at minus its exponent.
pub proof fn lemma_nearest_window(p: nat, q: nat)
    requires
        nearest(p, q) matches Some((m, e)) && e > -1074,
    ensures
        in_window(p, q, -(nearest(p, q)->Some_0.1)),
{
    let e = nearest(p, q)->Some_0.1;
    assert(bin_exp(p, q) == e);
    assert(exists|s: int| in_window(p, q, s));
    let s = choose|s: int| in_window(p, q, s);
    assert(s <= 1074);
}

/// Zero is its own nearest value.
pub proof fn lemma_nearest_zero(q: nat)
    requires
        q >= 1,
    ensures
        nearest(0, q) == Some((0nat, -1074int)),
{
    assert forall|s: int| !in_window(0, q, s) by {
        lemma_at_pos(1, q, s);
        lemma_p2_values();
        if s >= 0 {
            assert(0 * p2(s as nat) == 0);
        }
    }
    assert(bin_exp(0, q) == -1074);
    lemma_at_pos(1, q, 1074);
    assert(num_at(0, 1074) == 0) by {
        assert(0 * p2(1074) == 0);
    }
    lemma_fundamental_div_mod_converse(0, den_at(q, 1074) as int, 0, 0);
}

/// A rounded quotient lies within half the divisor of the dividend.
pub proof fn lemma_round_even_bound(n: nat, d: nat)
    requires
        d >= 1,
    ensures
        2 * n <= 2 * (round_even(n, d) * d) + d,
        2 * (round_even(n, d) * d) <= 2 * n + d,
{
    let f = n / d;
    let r = n % d;
    vstd::arithmetic::div_mod::lemma_fundamental_div_mod(n as int, d as int);
    assert(n == d * f + r);
    assert(d * f == f * d) by (nonlinear_arith);
    assert((f + 1) * d == f * d + d) by (nonlinear_arith);
}

/// A quotient within less than half the divisor of `k` rounds to `k`.
pub proof fn lemma_round_even_exact(n: nat, d: nat, k: nat)
    requires
        d >= 1,
        2 * n < 2 * (k * d) + d,
        2 * (k * d) < 2 * n + d,
    ensures
        round_even(n, d) == k,
{
    let m = round_even(n, d);
    lemma_round_even_bound(n, d);
    if m > k {
        assert(m * d >= k * d + d) by (nonlinear_arith)
            requires
                m >= k + 1,
        ;
    } else if m < k {
        assert(k * d >= m * d + d) by (nonlinear_arith)
            requires
                k >= m + 1,
        ;
    }
}

/// The nearest value of a ratio in the window at a scale of the normal
/// range.
pub proof fn lemma_nearest_from_window(p: nat, q: nat, t: int)
    requires
        p >= 1,
        q >= 1,
        in_window(p, q, t),
        -971 < t <= 1074,
    ensures
        nearest(p, q) == Some((round_even(num_at(p, t), den_at(q, t)), -t)),
{
    lemma_bin_exp_normal(p, q, t);
}

/// A window of a ratio exists, at some scale.
pub proof fn lemma_some_window(p: nat, q: nat) -> (t: int)
    requires
        p >= 1,
        q >= 1,
    ensures
        in_window(p, q, t),
{
    lemma_window_exists(p, q);
    choose|t: int| in_window(p, q, t)
}

/// Scaling both terms of a ratio leaves its nearest value as it is.
pub proof fn lemma_nearest_scale(p: nat, q: nat, c: nat)
    requires
        p >= 1,
        q >= 1,
        c >= 1,
    ensures
        nearest(p * c, q * c) == nearest(p, q),
{
    let pc0 = p * c;
    let qc0 = q * c;
    assert forall|s: int| #[trigger] in_window(pc0, qc0, s) == in_window(p, q, s) by {
        lemma_scale_at(p, q, c, s);
        let n = num_at(p, s);
        let d = den_at(q, s);
        assert((p2(52) * (d * c) <= n * c) == (p2(52) * d <= n)) by (nonlinear_arith)
            requires
                c >= 1,
        ;
        assert((n * c < p2(53) * (d * c)) == (n < p2(53) * d)) by (nonlinear_arith)
            requires
                c >= 1,
        ;
    }
    lemma_window_exists(p, q);
    assert(p * c >= 1) by (nonlinear_arith)
        requires
            p >= 1,
            c >= 1,
    ;
    assert(q * c >= 1) by (nonlinear_arith)
        requires
            q >= 1,
            c >= 1,
    ;
    lemma_window_exists(p * c, q * c);
    let pc = p * c;
    let qc = q * c;
    let t1 = choose|t: int| in_window(p, q, t);
    let t2 = choose|t: int| in_window(pc, qc, t);
    assert(in_window(pc, qc, t2));
    assert(in_window(p, q, t2));
    lemma_window_unique(p, q, t1, t2);
    let e = bin_exp(p, q);
    assert(bin_exp(p * c, q * c) == e);
    lemma_scale_at(p, q, c, -e);
    lemma_at_pos(p, q, -e);
    lemma_round_even_scale(num_at(p, -e), den_at(q, -e), c);
}

proof fn lemma_scale_at(p: nat, q: nat, c: nat, s: int)
    ensures
        num_at(p * c, s) == num_at(p, s) * c,
        den_at(q * c, s) == den_at(q, s) * c,
{
    if s >= 0 {
        assert(p * c * p2(s as nat) == p * p2(s as nat) * c) by (nonlinear_arith);
    } else {
        assert(q * c * p2((-s) as nat) == q * p2((-s) as nat) * c) by (nonlinear_arith);
    }
}

proof fn lemma_round_even_scale(n: nat, d: nat, c: nat)
    requires
        c >= 1,
        d >= 1,
    ensures
        round_even(n * c, d * c) == round_even(n, d),
{
    if d >= 1 {
        let f = n / d;
        let r = n % d;
        vstd::arithmetic::div_mod::lemma_fundamental_div_mod(n as int, d as int);
        vstd::arithmetic::div_mod::lemma_mod_bound(n as int, d as int);
        assert(n * c == f * (d * c) + r * c) by (nonlinear_arith)
            requires
                n == d * f + r,
        ;
        assert(r * c < d * c) by (nonlinear_arith)
            requires
                r < d,
                c >= 1,
        ;
        lemma_fundamental_div_mod_converse((n * c) as int, (d * c) as int, f as int, (r * c) as int);
        assert((2 * (r * c) > d * c) == (2 * r > d)) by (nonlinear_arith)
            requires
                c >= 1,
        ;
        assert((2 * (r * c) == d * c) == (2 * r == d)) by (nonlinear_arith)
            requires
                c >= 1,
        ;
    }
}

/// The denominator of a value with a non-positive exponent.
pub proof fn lemma_value_den(m: nat, s: nat)
    ensures
        value_den(-s) == p2(s),
        value_num(m, -s) == m,
{
    if s == 0 {
        assert(p2(0) == 1);
        assert(m * 1 == m);
    } else {
        assert(1 * p2(s) == p2(s));
    }
}

const TWO52: u64 = 0x10_0000_0000_0000;

const TWO53: u64 = 0x20_0000_0000_0000;

/// The binary64 value nearest `p/q`, as `nearest` states it, with its
/// significand and exponent in their ranges.
pub fn nearest_big(p: &Vec<u32>, q: &Vec<u32>) -> (r: Option<(u64, i32)>)
    requires
        big_val(p@) >= 1,
        big_val(q@) >= 1,
    ensures
        match r {
            None => nearest(big_val(p@), big_val(q@)) is None,
            Some((m, e)) => {
                &&& nearest(big_val(p@), big_val(q@)) == Some((m as nat, e as int))
                &&& m <= p2(53)
                &&& -1074 <= e <= 971
                &&& e > -1074 ==> m >= p2(52)
            },
        },
{
    let ghost pv = big_val(p@);
    let ghost qv = big_val(q@);
    proof {
        lemma_p2_values();
        lemma_at_zero(pv, qv);
    }
    let mut a = big_mul_add(p, 1, 0);
    let mut b = big_mul_add(q, 1, 0);
    let mut s: i32 = 0;
    let mut going = true;
    while going
        invariant
            pv == big_val(p@),
            qv == big_val(q@),
            pv >= 1,
            qv >= 1,
            -972 <= s <= 0,
            big_val(a@) == num_at(pv, s as int),
            big_val(b@) == den_at(qv, s as int),
            s < 0 ==> p2(52) * den_at(qv, s as int) <= num_at(pv, s as int),
            !going ==> num_at(pv, s as int) < p2(53) * den_at(qv, s as int),
            p2(52) == TWO52,
            p2(53) == TWO53,
        decreases s + 1000, if going {
            1int
        } else {
            0int
        },
    {
        let b53 = big_mul_add(&b, TWO53, 0);
        if big_compare(&a, &b53) == Relation::Below {
            going = false;
        } else {
            if s <= -972 {
                proof {
                    assert(p2(53) * den_at(qv, s as int) == big_val(b53@)) by (nonlinear_arith)
                        requires
                            big_val(b53@) == big_val(b@) * TWO53,
                            big_val(b@) == den_at(qv, s as int),
                            p2(53) == TWO53,
                    ;
                    lemma_bin_exp_overflow(pv, qv, s as int);
                    assert(bin_exp(pv, qv) > 971);
                    assert(nearest(pv, qv) is None);
                }
                return None;
            }
            proof {
                lemma_at_zero(pv, qv);
                lemma_step(pv, qv, s - 1);
                lemma_at_pos(pv, qv, s as int);
                assert(num_at(pv, s as int) == num_at(pv, s - 1));
                assert(den_at(qv, s - 1) == 2 * den_at(qv, s as int)) by (nonlinear_arith)
                    requires
                        num_at(pv, s as int) * den_at(qv, s - 1) == 2 * (num_at(pv, s - 1) * den_at(
                            qv,
                            s as int,
                        )),
                        num_at(pv, s as int) == num_at(pv, s - 1),
                        num_at(pv, s as int) >= 1,
                ;
                assert(p2(52) * den_at(qv, s - 1) == p2(53) * den_at(qv, s as int)) by (nonlinear_arith)
                    requires
                        den_at(qv, s - 1) == 2 * den_at(qv, s as int),
                        p2(53) == 2 * p2(52),
                ;
            }
            b = big_mul_add(&b, 2, 0);
            s = s - 1;
        }
    }
    let mut going2 = true;
    while going2
        invariant
            pv == big_val(p@),
            qv == big_val(q@),
            pv >= 1,
            qv >= 1,
            -972 <= s <= 1074,
            big_val(a@) == num_at(pv, s as int),
            big_val(b@) == den_at(qv, s as int),
            s < 0 ==> p2(52) * den_at(qv, s as int) <= num_at(pv, s as int),
            num_at(pv, s as int) < p2(53) * den_at(qv, s as int),
            !going2 ==> (p2(52) * den_at(qv, s as int) <= num_at(pv, s as int) || s == 1074),
            p2(52) == TWO52,
            p2(53) == TWO53,
        decreases 1074 - s, if going2 {
            1int
        } else {
            0int
        },
    {
        let b52 = big_mul_add(&b, TWO52, 0);
        if big_compare(&a, &b52) != Relation::Below || s >= 1074 {
            going2 = false;
        } else {
            proof {
                assert(s >= 0);
                assert(p2((s + 1) as nat) == 2 * p2(s as nat));
                assert(num_at(pv, s + 1) == 2 * num_at(pv, s as int)) by (nonlinear_arith)
                    requires
                        num_at(pv, s + 1) == pv * p2((s + 1) as nat),
                        num_at(pv, s as int) == pv * p2(s as nat),
                        p2((s + 1) as nat) == 2 * p2(s as nat),
                ;
                assert(p2(53) == 2 * p2(52));
            }
            a = big_mul_add(&a, 2, 0);
            s = s + 1;
        }
    }
    let ghost av = big_val(a@);
    let ghost bv = big_val(b@);
    proof {
        lemma_at_pos(pv, qv, s as int);
        if p2(52) * bv <= av {
            assert(in_window(pv, qv, s as int));
            lemma_bin_exp_normal(pv, qv, s as int);
        } else {
            lemma_bin_exp_subnormal(pv, qv);
        }
    }
    let e: i32 = -s;
    assert(bin_exp(pv, qv) == e);
    assert(-e == s);
    if s < -971 {
        return None;
    }
    let mut f: u64 = 0;
    let mut step: u64 = TWO53;
    let ghost mut j: nat = 53;
    while step > 1
        invariant
            bv >= 1,
            av == big_val(a@),
            bv == big_val(b@),
            step == p2(j),
            f + step <= TWO53,
            f * bv <= av,
            av < (f + step) * bv,
            p2(53) == TWO53,
        decreases j,
    {
        proof {
            assert(j > 0) by {
                if j == 0 {
                    assert(p2(0) == 1);
                }
            }
            assert(p2(j) == 2 * p2((j - 1) as nat));
        }
        let ghost old_step = step;
        step = step / 2;
        proof {
            j = (j - 1) as nat;
            assert(old_step == 2 * step);
            assert(av < (f + old_step) * bv);
        }
        let cand = f + step;
        let cb = big_mul_add(&b, cand, 0);
        let ghost f0 = f;
        proof {
            assert(av < (f0 + 2 * step) * bv);
            assert((f0 + 2 * step) * bv == cand * bv + step * bv) by (nonlinear_arith)
                requires
                    cand == f0 + step,
            ;
            assert(cand * bv == bv * cand) by (nonlinear_arith);
        }
        if big_compare(&cb, &a) != Relation::Above {
            f = cand;
            proof {
                assert(av < (f + step) * bv) by (nonlinear_arith)
                    requires
                        av < (f0 + 2 * step) * bv,
                        (f0 + 2 * step) * bv == cand * bv + step * bv,
                        f == cand,
                ;
            }
        } else {
            proof {
                assert(av < (f + step) * bv);
            }
        }
    }
    assert(step == 1);
    proof {
        assert((f + 1) * bv == f * bv + bv) by (nonlinear_arith);
        lemma_fundamental_div_mod_converse(av as int, bv as int, f as int, av - f * bv);
    }
    let t = big_mul_add(&b, 2 * f + 1, 0);
    let a2 = big_mul_add(&a, 2, 0);
    let rel = big_compare(&a2, &t);
    let m: u64 = if rel == Relation::Above || (rel == Relation::Same && f % 2 == 1) {
        f + 1
    } else {
        f
    };
    assert(m == round_even(av, bv)) by {
        assert(big_val(a2@) == 2 * av);
        assert(big_val(t@) == bv * (2 * f + 1));
        assert(bv * (2 * f + 1) == 2 * (f * bv) + bv) by (nonlinear_arith);
        assert(av / bv == f);
        assert(av % bv == av - f * bv);
    }
    proof {
        if e > -1074 {
            assert(p2(52) * bv <= av);
            assert(f + 1 > p2(52)) by (nonlinear_arith)
                requires
                    p2(52) * bv <= av,
                    av < (f + 1) * bv,
                    bv >= 1,
            ;
        }
    }
    if e == 971 && m == TWO53 {
        return None;
    }
    Some((m, e))
}

} // verus!
