//! Properties that relate several calls or hold of every input, proved over
//! the spec functions that the operations' contracts use.
use vstd::prelude::*;
use crate::liquidity::deposit_share;
use crate::pool::{sell_ok, AmmError, Pool};
use crate::pool_math::{
    buy_amount, gross_of_fee, lemma_chain_bounds, lemma_chain_product, lemma_product_positive, lemma_product_split,
    lemma_product_zero, net_of_fee, odds_weight, odds_weight_sum, pool_invariant, ratio_chain, sell_amount,
    shifted_product,
};

verus! {

/// Products whose factors agree agree.
pub proof fn lemma_product_pointwise(b1: Seq<u128>, d1: int, b2: Seq<u128>, d2: int, skip: int, k: int)
    requires
        k <= b1.len(),
        k <= b2.len(),
        forall|j: int| 0 <= j < k && j != skip ==> #[trigger] b1[j] + d1 == b2[j] + d2,
    ensures
        shifted_product(b1, skip, d1, k) == shifted_product(b2, skip, d2, k),
    decreases k,
{
    if k > 0 {
        lemma_product_pointwise(b1, d1, b2, d2, skip, k - 1);
        if k - 1 != skip {
            assert(b1[k - 1] + d1 == b2[k - 1] + d2);
        }
    }
}

/// Lowering reserve `i` to `x` strictly lowers every product that includes it.
proof fn lemma_product_shrinks(b: Seq<u128>, i: int, x: u128, skip: int, k: int)
    requires
        0 <= i < b.len(),
        0 < x < b[i],
        forall|j: int| 0 <= j < b.len() ==> #[trigger] b[j] > 0,
        skip != i,
        k <= b.len(),
    ensures
        k <= i ==> shifted_product(b.update(i, x), skip, 0, k) == shifted_product(b, skip, 0, k),
        k > i ==> shifted_product(b.update(i, x), skip, 0, k) < shifted_product(b, skip, 0, k),
    decreases k,
{
    let b2 = b.update(i, x);
    if k > 0 {
        lemma_product_shrinks(b, i, x, skip, k - 1);
        lemma_product_positive(b, skip, 0, k - 1);
        lemma_product_positive(b2, skip, 0, k - 1);
        let p = shifted_product(b, skip, 0, k - 1);
        let p2 = shifted_product(b2, skip, 0, k - 1);
        if k - 1 != skip {
            let f = b[k - 1] as int;
            let f2 = b2[k - 1] as int;
            if k - 1 == i {
                assert(p2 * f2 < p * f) by (nonlinear_arith)
                    requires
                        p2 == p,
                        p > 0,
                        0 < f2 < f,
                ;
            } else if k - 1 > i {
                assert(p2 * f2 < p * f) by (nonlinear_arith)
                    requires
                        0 < p2 < p,
                        f2 == f,
                        f > 0,
                ;
            }
        }
    }
}

/// Lowering reserve `i` lowers the sum of the odds weights, strictly once an
/// outcome other than `i` is counted.
proof fn lemma_weight_sum_shrinks(b: Seq<u128>, i: int, x: u128, k: int)
    requires
        0 <= i < b.len(),
        0 < x < b[i],
        forall|j: int| 0 <= j < b.len() ==> #[trigger] b[j] > 0,
        0 <= k <= b.len(),
    ensures
        odds_weight_sum(b.update(i, x), k) <= odds_weight_sum(b, k),
        (k >= 2 || (k == 1 && i != 0)) ==> odds_weight_sum(b.update(i, x), k) < odds_weight_sum(b, k),
    decreases k,
{
    let b2 = b.update(i, x);
    if k > 0 {
        lemma_weight_sum_shrinks(b, i, x, k - 1);
        let m = k - 1;
        if m == i {
            lemma_product_pointwise(b2, 0, b, 0, i, b.len() as int);
        } else {
            lemma_product_shrinks(b, i, x, m, b.len() as int);
        }
    }
}

/// The spot price of an outcome rises strictly as its own reserve falls, the
/// other reserves staying as they are. Prices are ratios of odds weights,
/// compared here without rounding: `odds_weight(b2, i) / odds_weight_sum(b2)`
/// exceeds `odds_weight(b, i) / odds_weight_sum(b)`. No fee enters a price,
/// so this holds at every fee setting.
pub proof fn lemma_price_rises_as_reserve_falls(b: Seq<u128>, i: int, x: u128)
    requires
        b.len() >= 2,
        0 <= i < b.len(),
        forall|j: int| 0 <= j < b.len() ==> #[trigger] b[j] > 0,
        0 < x < b[i],
    ensures
        odds_weight(b.update(i, x), i) * odds_weight_sum(b, b.len() as int) > odds_weight(b, i)
            * odds_weight_sum(b.update(i, x), b.len() as int),
{
    let b2 = b.update(i, x);
    let n = b.len() as int;
    lemma_product_pointwise(b2, 0, b, 0, i, n);
    lemma_product_positive(b, i, 0, n);
    lemma_weight_sum_shrinks(b, i, x, n);
    let w = odds_weight(b, i);
    let s = odds_weight_sum(b, n);
    let s2 = odds_weight_sum(b2, n);
    assert(w * s > w * s2) by (nonlinear_arith)
        requires
            w > 0,
            s > s2,
    ;
}

/// Multiplying by `a` and dividing by it again gives `x` back.
proof fn lemma_div_cancel(x: int, a: int)
    requires
        x >= 0,
        a > 0,
    ensures
        x * a / a == x,
{
    assert(x * a / a == x) by (nonlinear_arith)
        requires
            a > 0,
    ;
}

/// Adding liquidity to a pool with no LP shares and empty reserves, then
/// exiting with every LP share that the deposit minted, leaves the reserves
/// empty again and gives the depositor `amount` shares of every outcome: the
/// whole deposit, back as complete sets.
pub proof fn lemma_liquidity_round_trip(
    p0: Pool,
    p1: Pool,
    p2: Pool,
    sender: String,
    amount: u128,
    weight_indication: Option<Vec<u128>>,
    lp: u128,
    fees: u128,
)
    requires
        p0.wf(),
        p0.pool_token_supply == 0,
        forall|o: int| 0 <= o < p0.outcomes ==> #[trigger] p0.reserves@[o] == 0,
        Pool::add_liquidity_post(p0, p1, sender, amount, weight_indication, Ok::<u128, AmmError>(lp)),
        Pool::exit_liquidity_post(p1, p2, sender, lp, Ok::<u128, AmmError>(fees)),
    ensures
        lp == amount,
        forall|o: int| 0 <= o < p0.outcomes ==> #[trigger] p2.reserves@[o] == 0,
        forall|o: int| 0 <= o < p0.outcomes ==> #[trigger] p2.share_balance(sender@, o)
            == p0.share_balance(sender@, o) + amount,
        p2.lp_balance(sender@) == p0.lp_balance(sender@),
        p2.pool_token_supply == 0,
{
    let w = p0.deposit_weights(weight_indication);
    assert forall|o: int| 0 <= o < p0.outcomes implies #[trigger] p2.reserves@[o] == 0 by {
        let d = deposit_share(amount as int, w, o);
        assert(p1.reserves@[o] == d);
        lemma_div_cancel(d, amount as int);
    }
    assert forall|o: int| 0 <= o < p0.outcomes implies #[trigger] p2.share_balance(sender@, o)
        == p0.share_balance(sender@, o) + amount by {
        let d = deposit_share(amount as int, w, o);
        assert(p1.reserves@[o] == d);
        assert(p1.share_balance(sender@, o) == p0.share_balance(sender@, o) + amount - d);
        lemma_div_cancel(d, amount as int);
    }
}

/// With no fee, the shares bought for `c` never sell back for more than `c`:
/// selling for `c` right after the buy takes at least the shares it gave.
pub proof fn lemma_buy_then_sell_no_profit(b: Seq<u128>, t: int, c: int)
    requires
        0 <= t < b.len(),
        c > 0,
        forall|j: int| 0 <= j < b.len() ==> #[trigger] b[j] > 0,
    ensures
        ({
            let v = buy_amount(b, t, c, 0);
            let after = Seq::new(b.len(), |j: int| if j == t {
                (b[j] + c - v) as u128
            } else {
                (b[j] + c) as u128
            });
            (forall|j: int| 0 <= j < b.len() ==> b[j] + c <= u128::MAX) ==> sell_amount(after, t, c, 0) >= v
        }),
{
    let v = buy_amount(b, t, c, 0);
    let n = b.len() as int;
    let after = Seq::new(b.len(), |j: int| if j == t {
        (b[j] + c - v) as u128
    } else {
        (b[j] + c) as u128
    });
    if forall|j: int| 0 <= j < b.len() ==> b[j] + c <= u128::MAX {
        assert(net_of_fee(c, 0) == c);
        assert(gross_of_fee(c, 0) == c) by {
            assert(c * 10000 % 10000 == 0) by (nonlinear_arith);
            assert(c * 10000 / 10000 == c) by (nonlinear_arith);
        }
        let x = ratio_chain(b, t, c, n);
        assert(forall|j: int| 0 <= j < n && j != t ==> 0 < #[trigger] b[j] + c);
        lemma_chain_bounds(b, t, c, n);
        lemma_chain_product(b, t, c, n);
        assert(after[t] == x);
        assert forall|j: int| 0 <= j < n && j != t implies #[trigger] after[j] + (-c) == b[j] + 0 by {}
        lemma_product_pointwise(after, -c, b, 0, t, n);
        assert forall|j: int| 0 <= j < n && j != t implies #[trigger] after[j] + 0 == b[j] + c by {}
        lemma_product_pointwise(after, 0, b, c, t, n);
        assert(forall|j: int| 0 <= j < n && j != t ==> 0 < #[trigger] after[j] + (-c));
        lemma_chain_product(after, t, -c, n);
        lemma_product_positive(b, t, 0, n);
        let y = ratio_chain(after, t, -c, n);
        let e = shifted_product(b, t, 0, n);
        let d = shifted_product(b, t, c, n);
        assert(y * e >= x * d);
        assert(y >= b[t]) by (nonlinear_arith)
            requires
                y * e >= x * d,
                x * d >= b[t] * e,
                e > 0,
        ;
        assert(sell_amount(after, t, c, 0) == y - after[t] + c);
    }
}

/// A buy never lowers the product of the reserves: the rounding of the
/// target reserve is in the pool's favour, and the fee stays out of the reserves.
pub proof fn lemma_buy_keeps_product(
    pre: Pool,
    post: Pool,
    sender: String,
    collateral_in: u128,
    outcome_target: u16,
    min_shares_out: u128,
    shares_out: u128,
)
    requires
        pre.wf(),
        post.wf(),
        Pool::buy_post(pre, post, sender, collateral_in, outcome_target, min_shares_out, Ok::<u128, AmmError>(shares_out)),
    ensures
        pool_invariant(post.reserves@) >= pool_invariant(pre.reserves@),
{
    let b = pre.reserves@;
    let a = post.reserves@;
    let n = b.len() as int;
    let t = outcome_target as int;
    let c = net_of_fee(collateral_in as int, pre.swap_fee as int);
    assert(c >= 0) by (nonlinear_arith)
        requires
            c == collateral_in - collateral_in * pre.swap_fee / 10000,
            0 <= pre.swap_fee <= 10000,
            collateral_in >= 0,
    ;
    assert(shifted_product(b, t, c, n) != 0);
    assert forall|j: int| 0 <= j < n && j != t implies 0 < #[trigger] b[j] + c by {
        if b[j] + c == 0 {
            lemma_product_zero(b, t, c, j, n);
        }
    }
    lemma_chain_product(b, t, c, n);
    lemma_product_split(b, t, n);
    lemma_product_split(a, t, n);
    assert forall|j: int| 0 <= j < n && j != t implies #[trigger] a[j] + 0 == b[j] + (c) by {}
    lemma_product_pointwise(a, 0, b, c, t, n);
    assert(a[t] == ratio_chain(b, t, c, n));
}

/// A sale never lowers the product of the reserves: the rounding of the
/// target reserve is in the pool's favour, and the fee stays out of the reserves.
pub proof fn lemma_sell_keeps_product(
    pre: Pool,
    post: Pool,
    sender: String,
    collateral_out: u128,
    outcome_target: u16,
    max_shares_in: u128,
    shares_in: u128,
)
    requires
        pre.wf(),
        post.wf(),
        Pool::sell_post(pre, post, sender, collateral_out, outcome_target, max_shares_in, Ok::<u128, AmmError>(shares_in)),
    ensures
        pool_invariant(post.reserves@) >= pool_invariant(pre.reserves@),
{
    let b = pre.reserves@;
    let a = post.reserves@;
    let n = b.len() as int;
    let t = outcome_target as int;
    let c = gross_of_fee(collateral_out as int, pre.swap_fee as int);
    assert(sell_ok(b, t, collateral_out as int, pre.swap_fee as int));
    assert(forall|j: int| 0 <= j < n && j != t ==> 0 < #[trigger] b[j] + (-c));
    lemma_chain_product(b, t, -c, n);
    lemma_product_split(b, t, n);
    lemma_product_split(a, t, n);
    assert forall|j: int| 0 <= j < n && j != t implies #[trigger] a[j] + 0 == b[j] + (-c) by {}
    lemma_product_pointwise(a, 0, b, -c, t, n);
    assert(a[t] == ratio_chain(b, t, -c, n));
}

} // verus!
