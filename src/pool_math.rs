//! Fixed-product pool arithmetic over outcome reserves.
//!
//! A pool holds one reserve per outcome. Trades keep the product of all
//! reserves from falling: a buy adds net collateral to every reserve and takes
//! the target reserve down by the ratio of each other reserve before and after,
//! one ratio at a time and each step rounded in the pool's favour; a sell does
//! the reverse. Every step is a full-width `x * y / z`, so no product of
//! reserves is ever formed. The spot price of an outcome is its
//! odds weight, the product of every other reserve, over the sum of all odds
//! weights.
use vstd::prelude::*;
use crate::wide::{ceil_quotient, mul_div, mul_div_ceil};

verus! {

/// Denominator of the swap fee: a fee `f` takes `f / FEE_DENOMINATOR` of an amount.
pub const FEE_DENOMINATOR: u128 = 10000;

/// Why a pool computation has no result.
#[derive(Debug, Clone, Copy, PartialEq, Eq, Structural)]
pub enum MathError {
    ArithmeticOverflow,
    DivisionByZero,
    InsufficientLiquidity,
}

/// The product, over `j < k` with `j != skip`, of `b[j] + delta`.
pub open spec fn shifted_product(b: Seq<u128>, skip: int, delta: int, k: int) -> int
    decreases k,
{
    if k <= 0 {
        1
    } else if k - 1 == skip {
        shifted_product(b, skip, delta, k - 1)
    } else {
        shifted_product(b, skip, delta, k - 1) * (b[k - 1] + delta)
    }
}

/// Every factor and every partial product of `shifted_product(b, skip, delta, k)`
/// lies within `u128`.
pub open spec fn product_fits(b: Seq<u128>, skip: int, delta: int, k: int) -> bool {
    &&& forall|j: int| 0 <= j < k && j != skip ==> 0 <= #[trigger] b[j] + delta <= u128::MAX
    &&& forall|i: int| 0 <= i <= k ==> #[trigger] shifted_product(b, skip, delta, i) <= u128::MAX
}

/// `delta` as a signed shift: subtracted when `lower` holds, added otherwise.
pub open spec fn signed(delta: u128, lower: bool) -> int {
    if lower {
        -(delta as int)
    } else {
        delta as int
    }
}

/// `a / d` rounded up.
pub open spec fn ceil_div(a: int, d: int) -> int {
    if a % d == 0 {
        a / d
    } else {
        a / d + 1
    }
}

/// The fee taken from `amount` at fee rate `fee`.
pub open spec fn fee_amount(amount: int, fee: int) -> int {
    amount * fee / (FEE_DENOMINATOR as int)
}

/// The product of all reserves: the quantity that trades keep from falling.
pub open spec fn pool_invariant(b: Seq<u128>) -> int {
    shifted_product(b, b.len() as int, 0, b.len() as int)
}

/// The odds weight of outcome `i`: the product of every other reserve.
pub open spec fn odds_weight(b: Seq<u128>, i: int) -> int {
    shifted_product(b, i, 0, b.len() as int)
}

/// The sum of the odds weights of the outcomes below `k`.
pub open spec fn odds_weight_sum(b: Seq<u128>, k: int) -> int
    decreases k,
{
    if k <= 0 {
        0
    } else {
        odds_weight_sum(b, k - 1) + odds_weight(b, k - 1)
    }
}

/// The spot price of outcome `i`, in units where `one` is certainty.
pub open spec fn spot_price(b: Seq<u128>, i: int, one: int) -> int {
    odds_weight(b, i) * one / odds_weight_sum(b, b.len() as int)
}

/// Every odds weight and every partial sum of them lie within `u128`.
pub open spec fn price_fits(b: Seq<u128>, i: int, one: int) -> bool {
    &&& forall|k: int| 0 <= k < b.len() ==> #[trigger] product_fits(b, k, 0, b.len() as int)
    &&& forall|k: int| 0 <= k <= b.len() ==> #[trigger] odds_weight_sum(b, k) <= u128::MAX
}

/// Collateral that reaches the reserves when `collateral_in` is paid at fee `fee`.
pub open spec fn net_of_fee(collateral_in: int, fee: int) -> int {
    collateral_in - fee_amount(collateral_in, fee)
}

/// Reserve `t` scaled, for each other outcome `j < k`, by `b[j] / (b[j] + delta)`,
/// each step rounded up: what keeps the product of the reserves from falling
/// when `delta` is added to every other reserve.
pub open spec fn ratio_chain(b: Seq<u128>, t: int, delta: int, k: int) -> int
    decreases k,
{
    if k <= 0 {
        b[t] as int
    } else if k - 1 == t {
        ratio_chain(b, t, delta, k - 1)
    } else {
        ceil_quotient(ratio_chain(b, t, delta, k - 1) * b[k - 1], b[k - 1] + delta)
    }
}

/// Every shifted reserve in `ratio_chain(b, t, delta, k)` is positive and fits
/// in `u128`, and so does every step of the chain.
pub open spec fn chain_fits(b: Seq<u128>, t: int, delta: int, k: int) -> bool {
    &&& forall|j: int| 0 <= j < k && j != t ==> 0 < #[trigger] b[j] + delta <= u128::MAX
    &&& forall|i: int| 0 <= i <= k ==> #[trigger] ratio_chain(b, t, delta, i) <= u128::MAX
}

/// The reserve of `t` that keeps the product of the reserves from falling
/// after `c` is added to every other reserve.
pub open spec fn buy_target_reserve(b: Seq<u128>, t: int, c: int) -> int {
    ratio_chain(b, t, c, b.len() as int)
}

/// Shares of outcome `t` that a buy of `collateral_in` hands out.
pub open spec fn buy_amount(b: Seq<u128>, t: int, collateral_in: int, fee: int) -> int {
    let c = net_of_fee(collateral_in, fee);
    b[t] + c - buy_target_reserve(b, t, c)
}

/// The intermediate values of a buy lie within `u128`.
pub open spec fn buy_fits(b: Seq<u128>, t: int, collateral_in: int, fee: int) -> bool {
    let c = net_of_fee(collateral_in, fee);
    &&& collateral_in * fee <= u128::MAX
    &&& chain_fits(b, t, c, b.len() as int)
    &&& buy_amount(b, t, collateral_in, fee) <= u128::MAX
}

/// Collateral that must leave the reserves so that `collateral_out` reaches the seller
/// after the fee.
pub open spec fn gross_of_fee(collateral_out: int, fee: int) -> int {
    ceil_div(collateral_out * FEE_DENOMINATOR, FEE_DENOMINATOR - fee)
}

/// The reserve of `t` that keeps the product of the reserves from falling
/// after `c` is taken from every other reserve.
pub open spec fn sell_target_reserve(b: Seq<u128>, t: int, c: int) -> int {
    ratio_chain(b, t, -c, b.len() as int)
}

/// Shares of outcome `t` that a sale for `collateral_out` takes in.
pub open spec fn sell_amount(b: Seq<u128>, t: int, collateral_out: int, fee: int) -> int {
    let c = gross_of_fee(collateral_out, fee);
    sell_target_reserve(b, t, c) - b[t] + c
}

/// Every reserve but that of `t` covers `c`.
pub open spec fn covers(b: Seq<u128>, t: int, c: int) -> bool {
    forall|j: int| 0 <= j < b.len() && j != t ==> c < #[trigger] b[j]
}

/// The intermediate values of a sale lie within `u128`.
pub open spec fn sell_fits(b: Seq<u128>, t: int, collateral_out: int, fee: int) -> bool {
    let c = gross_of_fee(collateral_out, fee);
    &&& collateral_out * FEE_DENOMINATOR <= u128::MAX
    &&& chain_fits(b, t, -c, b.len() as int)
    &&& sell_amount(b, t, collateral_out, fee) <= u128::MAX
}

/// The product of all reserves is reserve `t` times the product of the others.
pub proof fn lemma_product_split(b: Seq<u128>, t: int, k: int)
    requires
        0 <= t,
        k <= b.len(),
    ensures
        shifted_product(b, b.len() as int, 0, k) == (if t < k {
            b[t] as int
        } else {
            1int
        }) * shifted_product(b, t, 0, k),
    decreases k,
{
    if k > 0 {
        lemma_product_split(b, t, k - 1);
        let p = shifted_product(b, b.len() as int, 0, k - 1);
        let e = shifted_product(b, t, 0, k - 1);
        let x = b[k - 1] as int;
        if t < k - 1 {
            let bt = b[t] as int;
            assert(bt * e * x == bt * (e * x)) by (nonlinear_arith);
        } else if t == k - 1 {
            assert(p == e);
            assert(e * x == x * e) by (nonlinear_arith);
        }
    }
}

/// Raising the shift never lowers a product of non-negative factors.
pub proof fn lemma_product_monotone(b: Seq<u128>, skip: int, d1: int, d2: int, k: int)
    requires
        d1 <= d2,
        k <= b.len(),
        forall|j: int| 0 <= j < k && j != skip ==> 0 <= #[trigger] b[j] + d1,
    ensures
        0 <= shifted_product(b, skip, d1, k) <= shifted_product(b, skip, d2, k),
    decreases k,
{
    if k > 0 {
        lemma_product_monotone(b, skip, d1, d2, k - 1);
        if k - 1 != skip {
            let p1 = shifted_product(b, skip, d1, k - 1);
            let p2 = shifted_product(b, skip, d2, k - 1);
            let x1 = b[k - 1] + d1;
            let x2 = b[k - 1] + d2;
            assert(0 <= p1 * x1 <= p2 * x2) by (nonlinear_arith)
                requires
                    0 <= p1 <= p2,
                    0 <= x1 <= x2,
            ;
        }
    }
}

/// Computes `shifted_product(b, skip, signed(delta, lower), b.len())`, or `None`
/// where a factor or a partial product leaves `u128`.
pub fn checked_product(b: &Vec<u128>, skip: usize, delta: u128, lower: bool) -> (r: Option<u128>)
    ensures
        r.is_some() <==> product_fits(b@, skip as int, signed(delta, lower), b@.len() as int),
        r.is_some() ==> r.unwrap() == shifted_product(
            b@,
            skip as int,
            signed(delta, lower),
            b@.len() as int,
        ),
{
    let ghost d = signed(delta, lower);
    let mut acc: u128 = 1;
    let mut j: usize = 0;
    while j < b.len()
        invariant
            j <= b.len(),
            d == signed(delta, lower),
            product_fits(b@, skip as int, d, j as int),
            acc == shifted_product(b@, skip as int, d, j as int),
        decreases b.len() - j,
    {
        if j != skip {
            let factor: u128;
            let x = b[j];
            if lower {
                match x.checked_sub(delta) {
                    Some(f) => {
                        factor = f;
                    },
                    None => {
                        assert(b@[j as int] + d < 0);
                        return None;
                    },
                }
            } else {
                match x.checked_add(delta) {
                    Some(f) => {
                        factor = f;
                    },
                    None => {
                        assert(b@[j as int] + d > u128::MAX);
                        return None;
                    },
                }
            }
            match acc.checked_mul(factor) {
                Some(p) => {
                    acc = p;
                },
                None => {
                    assert(shifted_product(b@, skip as int, d, j as int + 1) > u128::MAX);
                    return None;
                },
            }
        }
        j += 1;
        assert(shifted_product(b@, skip as int, d, j as int) == acc);
    }
    Some(acc)
}

/// Shares of outcome `t` handed out for `collateral_in`, the fee `fee` being
/// kept out of the reserves.
pub fn compute_buy_amount(b: &Vec<u128>, t: usize, collateral_in: u128, fee: u128) -> (r: Result<
    u128,
    MathError,
>)
    requires
        t < b.len(),
        fee <= FEE_DENOMINATOR,
    ensures
        match r {
            Ok(v) => buy_fits(b@, t as int, collateral_in as int, fee as int) && shifted_product(
                b@,
                t as int,
                net_of_fee(collateral_in as int, fee as int),
                b@.len() as int,
            ) != 0 && v == buy_amount(b@, t as int, collateral_in as int, fee as int) && 0
                <= net_of_fee(collateral_in as int, fee as int) <= collateral_in && v <= b@[t as int]
                + net_of_fee(collateral_in as int, fee as int),
            Err(MathError::ArithmeticOverflow) => !buy_fits(
                b@,
                t as int,
                collateral_in as int,
                fee as int,
            ) && !(collateral_in * fee <= u128::MAX && shifted_product(
                b@,
                t as int,
                net_of_fee(collateral_in as int, fee as int),
                b@.len() as int,
            ) == 0),
            Err(MathError::DivisionByZero) => collateral_in * fee <= u128::MAX && shifted_product(
                b@,
                t as int,
                net_of_fee(collateral_in as int, fee as int),
                b@.len() as int,
            ) == 0,
            Err(MathError::InsufficientLiquidity) => false,
        },
{
    let scaled = match collateral_in.checked_mul(fee) {
        Some(v) => v,
        None => {
            return Err(MathError::ArithmeticOverflow);
        },
    };
    let fee_part = scaled / FEE_DENOMINATOR;
    assert(fee_part <= collateral_in) by (nonlinear_arith)
        requires
            scaled == collateral_in * fee,
            fee <= 10000,
            fee_part == scaled / 10000,
    ;
    let c = collateral_in - fee_part;
    let ghost n = b@.len() as int;
    let mut j: usize = 0;
    while j < b.len()
        invariant
            j <= b.len(),
            n == b@.len(),
            t < b.len(),
            collateral_in * fee <= u128::MAX,
            c == net_of_fee(collateral_in as int, fee as int),
            forall|i: int| 0 <= i < j && i != t ==> 0 < #[trigger] b@[i] + c,
        decreases b.len() - j,
    {
        if j != t && c == 0 && b[j] == 0 {
            proof {
                lemma_product_zero(b@, t as int, c as int, j as int, n);
            }
            return Err(MathError::DivisionByZero);
        }
        j += 1;
    }
    proof {
        lemma_product_positive(b@, t as int, c as int, n);
    }
    let target = match checked_chain(b, t, c, false) {
        Some(v) => v,
        None => {
            return Err(MathError::ArithmeticOverflow);
        },
    };
    proof {
        lemma_chain_bounds(b@, t as int, c as int, n);
    }
    let kept = b[t] - target;
    match kept.checked_add(c) {
        Some(v) => Ok(v),
        None => Err(MathError::ArithmeticOverflow),
    }
}

/// Shares of outcome `t` taken in so that `collateral_out` reaches the seller,
/// the fee `fee` being kept in the pool.
pub fn compute_sell_amount(b: &Vec<u128>, t: usize, collateral_out: u128, fee: u128) -> (r: Result<
    u128,
    MathError,
>)
    requires
        t < b.len(),
        fee <= FEE_DENOMINATOR,
    ensures
        match r {
            Ok(v) => fee < FEE_DENOMINATOR && covers(
                b@,
                t as int,
                gross_of_fee(collateral_out as int, fee as int),
            ) && sell_fits(b@, t as int, collateral_out as int, fee as int) && v == sell_amount(
                b@,
                t as int,
                collateral_out as int,
                fee as int,
            ) && collateral_out <= gross_of_fee(collateral_out as int, fee as int) <= v && b@[t as int]
                + v - gross_of_fee(collateral_out as int, fee as int) <= u128::MAX,
            Err(MathError::DivisionByZero) => fee == FEE_DENOMINATOR,
            Err(MathError::InsufficientLiquidity) => fee < FEE_DENOMINATOR
                && collateral_out * FEE_DENOMINATOR <= u128::MAX && !covers(
                b@,
                t as int,
                gross_of_fee(collateral_out as int, fee as int),
            ),
            Err(MathError::ArithmeticOverflow) => fee < FEE_DENOMINATOR && (covers(
                b@,
                t as int,
                gross_of_fee(collateral_out as int, fee as int),
            ) || collateral_out * FEE_DENOMINATOR > u128::MAX) && !sell_fits(
                b@,
                t as int,
                collateral_out as int,
                fee as int,
            ),
        },
{
    if fee == FEE_DENOMINATOR {
        return Err(MathError::DivisionByZero);
    }
    let scaled = match collateral_out.checked_mul(FEE_DENOMINATOR) {
        Some(v) => v,
        None => {
            return Err(MathError::ArithmeticOverflow);
        },
    };
    let keep = FEE_DENOMINATOR - fee;
    let mut c = scaled / keep;
    if scaled % keep != 0 {
        c = c + 1;
    }
    assert(c == gross_of_fee(collateral_out as int, fee as int));
    assert(scaled / keep >= collateral_out) by (nonlinear_arith)
        requires
            scaled == collateral_out * 10000,
            0 < keep <= 10000,
    ;
    let ghost n = b@.len() as int;
    let mut j: usize = 0;
    while j < b.len()
        invariant
            j <= b.len(),
            forall|i: int| 0 <= i < j && i != t ==> c < #[trigger] b@[i],
            c == gross_of_fee(collateral_out as int, fee as int),
            fee < FEE_DENOMINATOR,
            collateral_out * FEE_DENOMINATOR <= u128::MAX,
        decreases b.len() - j,
    {
        if j != t && b[j] <= c {
            assert(!(c < b@[j as int]));
            return Err(MathError::InsufficientLiquidity);
        }
        j += 1;
    }
    proof {
        assert(forall|i: int| 0 <= i < n && i != t ==> 0 < #[trigger] b@[i] + (-(c as int)));
    }
    let target = match checked_chain(b, t, c, true) {
        Some(v) => v,
        None => {
            return Err(MathError::ArithmeticOverflow);
        },
    };
    proof {
        lemma_chain_bounds(b@, t as int, -(c as int), n);
    }
    let added = target - b[t];
    match added.checked_add(c) {
        Some(v) => Ok(v),
        None => Err(MathError::ArithmeticOverflow),
    }
}

/// A product of positive factors is positive.
pub proof fn lemma_product_positive(b: Seq<u128>, skip: int, delta: int, k: int)
    requires
        k <= b.len(),
        forall|j: int| 0 <= j < k && j != skip ==> 0 < #[trigger] b[j] + delta,
    ensures
        0 < shifted_product(b, skip, delta, k),
    decreases k,
{
    if k > 0 {
        lemma_product_positive(b, skip, delta, k - 1);
        if k - 1 != skip {
            let p = shifted_product(b, skip, delta, k - 1);
            let x = b[k - 1] + delta;
            assert(0 < p * x) by (nonlinear_arith)
                requires
                    0 < p,
                    0 < x,
            ;
        }
    }
}

/// The spot price of outcome `i`, scaled so that `one` stands for certainty.
pub fn compute_spot_price(b: &Vec<u128>, i: usize, one: u128) -> (r: Result<u128, MathError>)
    requires
        i < b.len(),
    ensures
        match r {
            Ok(v) => price_fits(b@, i as int, one as int) && odds_weight_sum(b@, b@.len() as int)
                != 0 && v == spot_price(b@, i as int, one as int),
            Err(MathError::ArithmeticOverflow) => !price_fits(b@, i as int, one as int),
            Err(MathError::DivisionByZero) => price_fits(b@, i as int, one as int)
                && odds_weight_sum(b@, b@.len() as int) == 0,
            Err(MathError::InsufficientLiquidity) => false,
        },
{
    let ghost n = b@.len() as int;
    let mut sum: u128 = 0;
    let mut weight_i: u128 = 0;
    let mut k: usize = 0;
    while k < b.len()
        invariant
            k <= b.len(),
            i < b.len(),
            n == b@.len(),
            forall|m: int| 0 <= m < k ==> #[trigger] product_fits(b@, m, 0, n),
            forall|m: int| 0 <= m <= k ==> #[trigger] odds_weight_sum(b@, m) <= u128::MAX,
            sum == odds_weight_sum(b@, k as int),
            i < k ==> weight_i == odds_weight(b@, i as int),
        decreases b.len() - k,
    {
        let w = match checked_product(b, k, 0, false) {
            Some(v) => v,
            None => {
                assert(!product_fits(b@, k as int, 0, n));
                return Err(MathError::ArithmeticOverflow);
            },
        };
        if k == i {
            weight_i = w;
        }
        match sum.checked_add(w) {
            Some(v) => {
                sum = v;
            },
            None => {
                assert(odds_weight_sum(b@, k as int + 1) > u128::MAX);
                return Err(MathError::ArithmeticOverflow);
            },
        }
        k += 1;
    }
    if sum == 0 {
        return Err(MathError::DivisionByZero);
    }
    proof {
        lemma_weight_sum_covers(b@, i as int, n);
        let w = weight_i as int;
        let s = sum as int;
        let o = one as int;
        assert(w * o / s <= o) by (nonlinear_arith)
            requires
                0 <= w <= s,
                s > 0,
                o >= 0,
        ;
    }
    match mul_div(weight_i, one, sum) {
        Some((q, _)) => Ok(q),
        None => Err(MathError::ArithmeticOverflow),
    }
}

/// The sum of the odds weights covers each of them.
pub proof fn lemma_weight_sum_covers(b: Seq<u128>, i: int, k: int)
    requires
        0 <= i < k <= b.len(),
    ensures
        odds_weight_sum(b, k) >= odds_weight(b, i),
    decreases k,
{
    lemma_weight_sum_nonneg(b, k - 1);
    lemma_product_monotone(b, k - 1, 0, 0, b.len() as int);
    if k - 1 > i {
        lemma_weight_sum_covers(b, i, k - 1);
    }
}

/// Sums of odds weights are never negative.
pub proof fn lemma_weight_sum_nonneg(b: Seq<u128>, k: int)
    requires
        k <= b.len(),
    ensures
        odds_weight_sum(b, k) >= 0,
    decreases k,
{
    if k > 0 {
        lemma_weight_sum_nonneg(b, k - 1);
        lemma_product_monotone(b, k - 1, 0, 0, b.len() as int);
    }
}

/// A zero factor makes the whole product zero.
pub proof fn lemma_product_zero(b: Seq<u128>, skip: int, delta: int, j: int, k: int)
    requires
        0 <= j < k <= b.len(),
        j != skip,
        b[j] + delta == 0,
    ensures
        shifted_product(b, skip, delta, k) == 0,
    decreases k,
{
    let f = b[k - 1] + delta;
    if k - 1 > j {
        lemma_product_zero(b, skip, delta, j, k - 1);
        if k - 1 != skip {
            assert(0 * f == 0);
        }
    } else {
        let p = shifted_product(b, skip, delta, k - 1);
        assert(p * 0 == 0);
    }
}

/// Rounding `n / f` up stays within `[m0, m1]` when `m0 * f <= n <= m1 * f`,
/// and never falls short of `n` once multiplied back.
pub proof fn lemma_ceil_quotient_bounds(n: int, f: int, m0: int, m1: int)
    requires
        f > 0,
        n >= 0,
        m0 * f <= n <= m1 * f,
    ensures
        m0 <= ceil_quotient(n, f) <= m1,
        ceil_quotient(n, f) * f >= n,
        ceil_quotient(n, f) >= 0,
{
    let q = n / f;
    let r = n % f;
    assert(n == q * f + r && 0 <= r < f) by (nonlinear_arith)
        requires
            f > 0,
            q == n / f,
            r == n % f,
    ;
    assert(q >= m0) by (nonlinear_arith)
        requires
            n == q * f + r,
            r < f,
            m0 * f <= n,
            f > 0,
    ;
    assert(q <= m1) by (nonlinear_arith)
        requires
            n == q * f + r,
            r >= 0,
            n <= m1 * f,
            f > 0,
    ;
    if r != 0 {
        assert(q < m1) by (nonlinear_arith)
            requires
                n == q * f + r,
                r > 0,
                n <= m1 * f,
                f > 0,
        ;
        assert((q + 1) * f >= n) by (nonlinear_arith)
            requires
                n == q * f + r,
                r < f,
        ;
    }
    assert(q >= 0) by (nonlinear_arith)
        requires
            n == q * f + r,
            r < f,
            n >= 0,
            f > 0,
    ;
}

/// With positive shifted reserves, the chain falls (for `delta >= 0`) or rises
/// (for `delta <= 0`) from reserve `t`.
pub proof fn lemma_chain_bounds(b: Seq<u128>, t: int, delta: int, k: int)
    requires
        0 <= t < b.len(),
        k <= b.len(),
        forall|j: int| 0 <= j < b.len() && j != t ==> 0 < #[trigger] b[j] + delta,
    ensures
        ratio_chain(b, t, delta, k) >= 0,
        delta >= 0 ==> ratio_chain(b, t, delta, k) <= b[t],
        delta <= 0 ==> ratio_chain(b, t, delta, k) >= b[t],
    decreases k,
{
    if k > 0 {
        lemma_chain_bounds(b, t, delta, k - 1);
        if k - 1 != t {
            let x = ratio_chain(b, t, delta, k - 1);
            let f = b[k - 1] + delta;
            let bj = b[k - 1] as int;
            if delta >= 0 {
                assert(0 * f <= x * bj <= x * f) by (nonlinear_arith)
                    requires
                        x >= 0,
                        0 <= bj <= f,
                ;
                if delta == 0 {
                    lemma_ceil_quotient_bounds(x * bj, f, x, x);
                } else {
                    lemma_ceil_quotient_bounds(x * bj, f, 0, x);
                }
            } else {
                assert(x * f <= x * bj) by (nonlinear_arith)
                    requires
                        x >= 0,
                        f <= bj,
                ;
                assert(x * bj >= 0) by (nonlinear_arith)
                    requires
                        x >= 0,
                        bj >= 0,
                ;
                assert(x * bj <= x * bj * f) by (nonlinear_arith)
                    requires
                        x * bj >= 0,
                        f >= 1,
                ;
                lemma_ceil_quotient_bounds(x * bj, f, x, x * bj);
            }
        }
    }
}

/// The chain times the product of the shifted reserves never falls below
/// reserve `t` times the product of the unshifted ones.
pub proof fn lemma_chain_product(b: Seq<u128>, t: int, delta: int, k: int)
    requires
        0 <= t < b.len(),
        k <= b.len(),
        forall|j: int| 0 <= j < b.len() && j != t ==> 0 < #[trigger] b[j] + delta,
    ensures
        ratio_chain(b, t, delta, k) * shifted_product(b, t, delta, k) >= b[t] * shifted_product(b, t, 0, k),
    decreases k,
{
    if k > 0 {
        lemma_chain_product(b, t, delta, k - 1);
        lemma_chain_bounds(b, t, delta, k - 1);
        if k - 1 != t {
            let x = ratio_chain(b, t, delta, k - 1);
            let f = b[k - 1] + delta;
            let bj = b[k - 1] as int;
            let pd = shifted_product(b, t, delta, k - 1);
            let p0 = shifted_product(b, t, 0, k - 1);
            let bt = b[t] as int;
            lemma_product_positive(b, t, delta, k - 1);
            assert(x * bj >= 0) by (nonlinear_arith)
                requires
                    x >= 0,
                    bj >= 0,
            ;
            assert(x * bj <= x * bj * f) by (nonlinear_arith)
                requires
                    x * bj >= 0,
                    f >= 1,
            ;
            lemma_ceil_quotient_bounds(x * bj, f, 0, x * bj);
            let y = ceil_quotient(x * bj, f);
            assert(y * (f * pd) >= bt * (p0 * bj)) by (nonlinear_arith)
                requires
                    y * f >= x * bj,
                    x * pd >= bt * p0,
                    pd > 0,
                    bj >= 0,
                    y >= 0,
            ;
            assert(shifted_product(b, t, delta, k) == pd * f);
            assert(shifted_product(b, t, 0, k) == p0 * bj);
            assert(y * (pd * f) == y * (f * pd)) by (nonlinear_arith);
            assert(bt * (p0 * bj) == bt * (p0 * bj));
        }
    }
}

/// Computes `ratio_chain(b, t, signed(delta, lower), b.len())`, or `None` where
/// a shifted reserve or a step leaves `u128`. Every shifted reserve must be positive.
pub fn checked_chain(b: &Vec<u128>, t: usize, delta: u128, lower: bool) -> (r: Option<u128>)
    requires
        t < b.len(),
        forall|j: int| 0 <= j < b.len() && j != t ==> 0 < #[trigger] b@[j] + signed(delta, lower),
    ensures
        r.is_some() <==> chain_fits(b@, t as int, signed(delta, lower), b@.len() as int),
        r.is_some() ==> r.unwrap() == ratio_chain(b@, t as int, signed(delta, lower), b@.len() as int),
{
    let ghost d = signed(delta, lower);
    let mut x: u128 = b[t];
    let mut j: usize = 0;
    while j < b.len()
        invariant
            j <= b.len(),
            t < b.len(),
            d == signed(delta, lower),
            forall|i: int| 0 <= i < b.len() && i != t ==> 0 < #[trigger] b@[i] + d,
            chain_fits(b@, t as int, d, j as int),
            x == ratio_chain(b@, t as int, d, j as int),
        decreases b.len() - j,
    {
        if j != t {
            let f: u128;
            if lower {
                f = b[j] - delta;
            } else {
                match b[j].checked_add(delta) {
                    Some(v) => {
                        f = v;
                    },
                    None => {
                        assert(!(b@[j as int] + d <= u128::MAX));
                        return None;
                    },
                }
            }
            match mul_div_ceil(x, b[j], f) {
                Some(v) => {
                    x = v;
                },
                None => {
                    assert(ratio_chain(b@, t as int, d, j as int + 1) > u128::MAX);
                    return None;
                },
            }
        }
        j += 1;
        assert(ratio_chain(b@, t as int, d, j as int) == x);
    }
    Some(x)
}

} // verus!
