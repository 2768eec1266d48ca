//! `a * b / d` on `u128` values without forming the product, by long division
//! over the bits of `b`.
use vstd::prelude::*;
use vstd::arithmetic::div_mod::{lemma_div_denominator, lemma_fundamental_div_mod, lemma_fundamental_div_mod_converse};
use vstd::arithmetic::power2::{lemma2_to64, lemma_pow2_adds, lemma_pow2_pos, lemma_pow2_unfold, pow2};
use vstd::bits::lemma_u128_shr_is_div;

verus! {

/// The bits of `b` from position `k` up, as a number.
pub open spec fn top_bits(b: u128, k: nat) -> int {
    b as int / pow2(k) as int
}

/// Taking one more low bit doubles the top bits and adds that bit.
proof fn lemma_top_bits_step(b: u128, k: nat)
    requires
        k < 128,
    ensures
        top_bits(b, k) == 2 * top_bits(b, k + 1) + top_bits(b, k) % 2,
        top_bits(b, k) == (b >> (k as u128)) as int,
{
    lemma_u128_shr_is_div(b, k as u128);
    lemma_pow2_pos(k);
    lemma_pow2_unfold(k + 1);
    lemma_div_denominator(b as int, pow2(k) as int, 2);
    assert(pow2(k) * 2 == pow2(k + 1));
}

/// Above bit 127 nothing is left; from bit 0 up is the whole number.
proof fn lemma_top_bits_ends(b: u128)
    ensures
        top_bits(b, 128) == 0,
        top_bits(b, 0) == b,
{
    lemma2_to64();
    lemma_pow2_adds(64, 64);
    assert(pow2(128) > u128::MAX);
}

/// `(q, r)` with `q == a * b / d` and `r == a * b % d`, or `None` where the
/// quotient exceeds `u128`.
pub fn mul_div(a: u128, b: u128, d: u128) -> (res: Option<(u128, u128)>)
    requires
        d > 0,
    ensures
        res.is_some() <==> (a * b) / (d as int) <= u128::MAX,
        res matches Some((q, r)) ==> q == (a * b) / (d as int) && r == (a * b) % (d as int),
{
    let qa = a / d;
    let ra = a % d;
    let mut q: u128 = 0;
    let mut r: u128 = 0;
    let mut k: u32 = 128;
    proof {
        lemma_top_bits_ends(b);
    }
    while k > 0
        invariant
            k <= 128,
            qa == a / d,
            ra == a % d,
            ra < d,
            r < d,
            ra * top_bits(b, k as nat) == q * d + r,
        decreases k,
    {
        let kk = k - 1;
        let s = b >> (kk as u128);
        proof {
            lemma_top_bits_step(b, kk as nat);
        }
        let bit = s % 2;
        let ghost t = top_bits(b, k as nat);
        let ghost t2 = top_bits(b, kk as nat);
        let r2: u128;
        let c1: u128;
        if r >= d - r {
            r2 = r - (d - r);
            c1 = 1;
        } else {
            r2 = r + r;
            c1 = 0;
        }
        assert(2 * r == r2 + c1 * d);
        assert(r2 < d);
        let x: u128 = if bit == 1 { ra } else { 0 };
        let r3: u128;
        let c2: u128;
        if r2 >= d - x {
            r3 = r2 - (d - x);
            c2 = 1;
        } else {
            r3 = r2 + x;
            c2 = 0;
        }
        assert(r2 + x == r3 + c2 * d);
        assert(r3 < d);
        proof {
            assert(bit == 0 || bit == 1);
            assert(x == bit * ra);
            assert(t2 == 2 * t + bit);
            assert(ra * t2 == 2 * (ra * t) + bit * ra) by (nonlinear_arith)
                requires
                    t2 == 2 * t + bit,
            ;
            let qn = 2 * q + c1 + c2;
            assert(ra * t2 == qn * d + r3) by (nonlinear_arith)
                requires
                    ra * t2 == 2 * (ra * t) + bit * ra,
                    ra * t == q * d + r,
                    2 * r == r2 + c1 * d,
                    r2 + x == r3 + c2 * d,
                    x == bit * ra,
                    qn == 2 * q + c1 + c2,
            ;
            assert(qn <= u128::MAX) by (nonlinear_arith)
                requires
                    ra * t2 == qn * d + r3,
                    0 <= ra < d,
                    0 <= r3,
                    0 <= t2 <= u128::MAX,
                    qn >= 0,
            ;
        }
        q = 2 * q + c1 + c2;
        r = r3;
        k = kk;
    }
    proof {
        lemma_top_bits_ends(b);
        lemma_fundamental_div_mod(a as int, d as int);
        assert(a == qa * d + ra);
        assert(a * b == (qa * b + q) * d + r) by (nonlinear_arith)
            requires
                a == qa * d + ra,
                ra * b == q * d + r,
        ;
        lemma_fundamental_div_mod_converse(a * b, d as int, qa * b + q, r as int);
    }
    let hi = match qa.checked_mul(b) {
        Some(v) => v,
        None => {
            return None;
        },
    };
    match hi.checked_add(q) {
        Some(v) => Some((v, r)),
        None => None,
    }
}

/// `a * b / d` rounded up, or `None` where it exceeds `u128`.
pub fn mul_div_ceil(a: u128, b: u128, d: u128) -> (res: Option<u128>)
    requires
        d > 0,
    ensures
        res.is_some() <==> ceil_quotient(a * b, d as int) <= u128::MAX,
        res matches Some(q) ==> q == ceil_quotient(a * b, d as int),
{
    match mul_div(a, b, d) {
        Some((q, r)) => {
            if r == 0 {
                Some(q)
            } else {
                q.checked_add(1)
            }
        },
        None => None,
    }
}

/// `x * num / den` for a fraction `num / den` no larger than one, which
/// therefore never exceeds `x`.
pub fn scale_down(x: u128, num: u128, den: u128) -> (r: u128)
    requires
        0 < den,
        num <= den,
    ensures
        r == (x * num) / (den as int),
        r <= x,
{
    proof {
        let xi = x as int;
        let n = num as int;
        let d = den as int;
        assert(0 <= xi * n / d <= xi) by (nonlinear_arith)
            requires
                xi >= 0,
                0 <= n <= d,
                d > 0,
        ;
    }
    match mul_div(x, num, den) {
        Some((q, _)) => q,
        None => 0,
    }
}

/// `x / d` rounded up.
pub open spec fn ceil_quotient(x: int, d: int) -> int {
    if x % d == 0 {
        x / d
    } else {
        x / d + 1
    }
}

} // verus!
