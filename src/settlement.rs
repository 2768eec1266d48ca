//! Settlement of a resolved market: fixing the payout distribution once, and
//! paying each account for what it holds, LP shares included.
use vstd::prelude::*;
use crate::liquidity::exit_share;
use crate::wide::scale_down;
use crate::market::{payout_valid, seq_sum, AMMContract, Market};
use crate::pool::{copy_amounts, held, sell_ok, zeros, AmmError, Pool};
use crate::pool_math::{
    buy_amount, buy_fits, compute_buy_amount, compute_sell_amount, compute_spot_price, net_of_fee, odds_weight_sum,
    price_fits, sell_amount, shifted_product, spot_price, MathError, FEE_DENOMINATOR,
};

verus! {

impl Pool {
    /// The shares of outcome `o` that account `a` holds once its LP shares are exited.
    pub open spec fn claimable(&self, a: Seq<char>, o: int) -> int {
        self.share_balance(a, o) + if self.lp_balance(a) > 0 {
            exit_share(self.reserves@[o] as int, self.lp_balance(a), self.pool_token_supply as int)
        } else {
            0
        }
    }

    /// The collected fees owed to account `a` for its LP shares.
    pub open spec fn fee_claim(&self, a: Seq<char>) -> int {
        if self.lp_balance(a) > 0 {
            exit_share(self.fee_pool as int, self.lp_balance(a), self.pool_token_supply as int)
        } else {
            0
        }
    }

    /// What account `a` is paid for outcomes below `k` under payout numerators
    /// `p` with sum `den`.
    pub open spec fn payout_sum(&self, a: Seq<char>, p: Seq<u128>, den: int, k: int) -> int
        decreases k,
    {
        if k <= 0 {
            0
        } else {
            self.payout_sum(a, p, den, k - 1) + self.claimable(a, k - 1) * p[k - 1] / den
        }
    }

    /// Account `a` holds nothing in the pool.
    pub open spec fn holds_nothing(&self, a: Seq<char>) -> bool {
        self.lp_balance(a) == 0 && forall|o: int| 0 <= o < self.outcomes ==> #[trigger] self.share_balance(a, o) == 0
    }

    /// Every partial sum of what account `a` is paid under numerators `p` with
    /// sum `den`, fees included, stays within `u128`.
    pub open spec fn claim_fits(&self, a: Seq<char>, p: Seq<u128>, den: int) -> bool {
        &&& forall|k: int| 0 <= k <= self.outcomes ==> #[trigger] self.payout_sum(a, p, den, k) <= u128::MAX
        &&& self.payout_sum(a, p, den, self.outcomes as int) + self.fee_claim(a) <= u128::MAX
    }

    /// Pays `sender` for everything it holds under payout numerators `payout`:
    /// its LP shares are exited first, then every outcome share is burnt for
    /// its part of the payout, and the fees owed for the LP shares are added.
    pub fn claim(&mut self, sender: &String, payout: &Vec<u128>, den: u128) -> (r: Result<u128, AmmError>)
        requires
            old(self).wf(),
            payout_valid(payout@, old(self).outcomes as int),
            den == seq_sum(payout@),
        ensures
            final(self).wf(),
            r.is_err() ==> *final(self) == *old(self),
            r == Err::<u128, AmmError>(AmmError::NothingToClaim) <==> old(self).holds_nothing(sender@),
            r.is_err() ==> r == Err::<u128, AmmError>(AmmError::NothingToClaim) || r == Err::<u128, AmmError>(
                AmmError::Math(MathError::ArithmeticOverflow),
            ),
            r is Ok <==> !old(self).holds_nothing(sender@) && old(self).claim_fits(sender@, payout@, den as int),
            r is Ok ==> ({
                let pre = *old(self);
                let post = *final(self);
                let lp = pre.lp_balance(sender@);
                &&& r->Ok_0 == pre.payout_sum(sender@, payout@, den as int, pre.outcomes as int) + pre.fee_claim(sender@)
                &&& post.holds_nothing(sender@)
                &&& forall|o: int| 0 <= o < pre.outcomes ==> #[trigger] post.minted@[o] == pre.minted@[o] - pre.claimable(sender@, o)
                &&& forall|o: int| 0 <= o < pre.outcomes ==> #[trigger] post.reserves@[o] == pre.reserves@[o]
                    - (pre.claimable(sender@, o) - pre.share_balance(sender@, o))
                &&& post.pool_token_supply == pre.pool_token_supply - lp
                &&& post.fee_pool == pre.fee_pool - pre.fee_claim(sender@)
                &&& forall|a: Seq<char>, o: int| a != sender@ ==> #[trigger] post.balance(a, o) == pre.balance(a, o)
            }),
            final(self).outcomes == old(self).outcomes,
            final(self).market_id == old(self).market_id,
            final(self).collateral_token_id == old(self).collateral_token_id,
            final(self).collateral_denomination == old(self).collateral_denomination,
    {
        let n = self.outcomes as usize;
        let lp = self.lp_shares_of(sender);
        let shares = self.shares_of(sender);
        let supply = self.pool_token_supply;
        proof {
            self.lemma_balance_bounds(sender@, -1);
        }
        let mut empty = lp == 0;
        let mut i: usize = 0;
        while i < n
            invariant
                n == self.outcomes,
                i <= n,
                shares@.len() == n,
                forall|j: int| 0 <= j < n ==> #[trigger] shares@[j] == self.share_balance(sender@, j),
                empty <==> (lp == 0 && forall|j: int| 0 <= j < i ==> #[trigger] self.share_balance(sender@, j) == 0),
            decreases n - i,
        {
            if shares[i] != 0 {
                empty = false;
            }
            i += 1;
        }
        if empty {
            return Err(AmmError::NothingToClaim);
        }
        let mut fee_out: u128 = 0;
        if lp > 0 {
            fee_out = scale_down(self.fee_pool, lp, supply);
        }
        let mut total: u128 = 0;
        let mut owed: Vec<u128> = Vec::new();
        let mut k: usize = 0;
        while k < n
            invariant
                self.wf(),
                *self == *old(self),
                n == self.outcomes,
                k <= n,
                payout@.len() == n,
                den == seq_sum(payout@),
                den > 0,
                shares@.len() == n,
                lp == self.lp_balance(sender@),
                supply == self.pool_token_supply,
                lp <= supply,
                forall|j: int| 0 <= j < n ==> #[trigger] shares@[j] == self.share_balance(sender@, j),
                owed@.len() == k,
                forall|j: int| 0 <= j < k ==> #[trigger] owed@[j] == self.claimable(sender@, j),
                total == self.payout_sum(sender@, payout@, den as int, k as int),
                !self.holds_nothing(sender@),
                lp > 0 ==> fee_out == self.fee_claim(sender@),
                lp == 0 ==> fee_out == 0,
                forall|j: int| 0 <= j <= k ==> #[trigger] self.payout_sum(sender@, payout@, den as int, j) <= u128::MAX,
            decreases n - k,
        {
            let mut c = shares[k];
            proof {
                self.lemma_balance_bounds(sender@, k as int);
            }
            if lp > 0 {
                c = c + scale_down(self.reserves[k], lp, supply);
            }
            assert(c == self.claimable(sender@, k as int));
            proof {
                lemma_sum_covers(payout@, k as int);
            }
            let part = scale_down(c, payout[k], den);
            total = match total.checked_add(part) {
                Some(v) => v,
                None => {
                    assert(self.payout_sum(sender@, payout@, den as int, k as int + 1) > u128::MAX);
                    return Err(AmmError::Math(MathError::ArithmeticOverflow));
                },
            };
            owed.push(c);
            k += 1;
        }
        let result = match total.checked_add(fee_out) {
            Some(v) => v,
            None => {
                return Err(AmmError::Math(MathError::ArithmeticOverflow));
            },
        };
        let ghost pre = *self;
        if lp > 0 {
            let exited = self.exit_liquidity(sender, lp);
            match exited {
                Ok(_) => {},
                Err(_) => {
                    proof {
                        assert(false);
                    }
                    return Err(AmmError::Math(MathError::ArithmeticOverflow));
                },
            }
        }
        let ghost mid = *self;
        assert forall|o: int| 0 <= o < n implies #[trigger] mid.balance(sender@, o) == owed@[o] by {
            assert(mid.share_balance(sender@, o) == owed@[o]);
        }
        let mut minted: Vec<u128> = Vec::new();
        let mut m: usize = 0;
        while m < n
            invariant
                self.wf(),
                *self == mid,
                n == self.outcomes,
                m <= n,
                owed@.len() == n,
                minted@.len() == m,
                forall|j: int| 0 <= j < n ==> #[trigger] self.balance(sender@, j) == owed@[j],
                forall|j: int| 0 <= j < m ==> #[trigger] minted@[j] == self.minted@[j] - owed@[j],
            decreases n - m,
        {
            proof {
                self.lemma_balance_bounds(sender@, m as int);
                assert(self.share_balance(sender@, m as int) == owed@[m as int]);
                assert(self.minted@[m as int] >= owed@[m as int]);
            }
            minted.push(self.minted[m] - owed[m]);
            m += 1;
        }
        let zero = zeros(n);
        let reserves = copy_amounts(&self.reserves);
        proof {
            self.lemma_balance_bounds(sender@, -1);
            assert forall|o: int| 0 <= o < n implies held(self.holdings@, o) - self.balance(sender@, o)
                + zero@[o] + reserves@[o] == #[trigger] minted@[o] by {
                assert(self.balance(sender@, o) == owed@[o]);
                assert(held(self.holdings@, o) + self.reserves@[o] == self.minted@[o]);
            }
        }
        self.commit(sender, reserves, minted, self.pool_token_supply, self.fee_pool, zero, 0);
        proof {
            assert forall|o: int| 0 <= o < n implies #[trigger] self.share_balance(sender@, o) == 0 by {
                assert(self.balance(sender@, o) == zero@[o]);
            }
            assert(self.holds_nothing(sender@));
            assert(result == pre.payout_sum(sender@, payout@, den as int, n as int) + pre.fee_claim(sender@));
            assert(forall|o: int| 0 <= o < n ==> #[trigger] self.minted@[o] == pre.minted@[o] - pre.claimable(sender@, o));
            assert(forall|o: int| 0 <= o < n ==> #[trigger] self.reserves@[o] == pre.reserves@[o]
                    - (pre.claimable(sender@, o) - pre.share_balance(sender@, o)));
            assert(self.pool_token_supply == pre.pool_token_supply - lp);
            assert(self.fee_pool == pre.fee_pool - pre.fee_claim(sender@));
        }
        Ok(result)
    }
}

/// The sum of `p`, or `None` where a partial sum leaves `u128`.
fn checked_sum(p: &Vec<u128>) -> (r: Option<u128>)
    ensures
        r.is_some() ==> r.unwrap() == seq_sum(p@),
        r.is_none() ==> seq_sum(p@) > u128::MAX,
{
    let mut acc: u128 = 0;
    let mut i: usize = 0;
    while i < p.len()
        invariant
            i <= p.len(),
            acc == seq_sum(p@.take(i as int)),
        decreases p.len() - i,
    {
        assert(p@.take(i as int + 1).drop_last() =~= p@.take(i as int));
        match acc.checked_add(p[i]) {
            Some(v) => {
                acc = v;
            },
            None => {
                proof {
                    lemma_sum_grows(p@, i as int + 1);
                }
                assert(p@.take(p.len() as int) =~= p@);
                return None;
            },
        }
        i += 1;
    }
    assert(p@.take(p.len() as int) =~= p@);
    Some(acc)
}

/// Each element of `p` is at most its sum.
proof fn lemma_sum_covers(p: Seq<u128>, k: int)
    requires
        0 <= k < p.len(),
    ensures
        p[k] <= seq_sum(p),
    decreases p.len(),
{
    lemma_sum_nonneg(p.drop_last());
    if k < p.len() - 1 {
        lemma_sum_covers(p.drop_last(), k);
    }
}

/// Sums of amounts are never negative.
proof fn lemma_sum_nonneg(p: Seq<u128>)
    ensures
        seq_sum(p) >= 0,
    decreases p.len(),
{
    if p.len() > 0 {
        lemma_sum_nonneg(p.drop_last());
    }
}

/// A partial sum never exceeds the whole.
proof fn lemma_sum_grows(p: Seq<u128>, k: int)
    requires
        0 <= k <= p.len(),
    ensures
        seq_sum(p.take(k)) <= seq_sum(p),
    decreases p.len() - k,
{
    if k < p.len() {
        lemma_sum_grows(p, k + 1);
        assert(p.take(k + 1).drop_last() =~= p.take(k));
    } else {
        assert(p.take(k) =~= p);
    }
}

impl AMMContract {
    /// Fixes the payout distribution of market `market_id`. `None` voids the
    /// market: every outcome then pays the same.
    pub fn resolute_market(&mut self, market_id: u64, payout_numerator: Option<Vec<u128>>) -> (r: Result<(), AmmError>)
        requires
            old(self).wf(),
        ensures
            final(self).wf(),
            r.is_err() ==> *final(self) == *old(self),
            r == Err::<(), AmmError>(AmmError::UnknownMarket) <==> market_id >= old(self).markets@.len(),
            r == Err::<(), AmmError>(AmmError::AlreadyFinalized) <==> market_id < old(self).markets@.len()
                && old(self).markets@[market_id as int].finalized,
            r == Err::<(), AmmError>(AmmError::NoDataRequest) <==> market_id < old(self).markets@.len()
                && !old(self).markets@[market_id as int].finalized
                && old(self).markets@[market_id as int].dr_creator.is_none(),
            r == Err::<(), AmmError>(AmmError::ValidationError) <==> market_id < old(self).markets@.len()
                && !old(self).markets@[market_id as int].finalized
                && old(self).markets@[market_id as int].dr_creator.is_some() && match payout_numerator {
                    Some(p) => !payout_valid(p@, old(self).markets@[market_id as int].pool.outcomes as int),
                    None => old(self).markets@[market_id as int].pool.outcomes == 0,
                },
            r is Err ==> r == Err::<(), AmmError>(AmmError::UnknownMarket) || r == Err::<(), AmmError>(
                AmmError::AlreadyFinalized,
            ) || r == Err::<(), AmmError>(AmmError::NoDataRequest) || r == Err::<(), AmmError>(
                AmmError::ValidationError,
            ),
            r is Ok ==> ({
                let pre = old(self).markets@[market_id as int];
                let post = final(self).markets@[market_id as int];
                &&& final(self).markets@ == old(self).markets@.update(market_id as int, post)
                &&& post == Market { payout_numerator: post.payout_numerator, finalized: true, ..pre }
                &&& post.payout_numerator matches Some(p) && match payout_numerator {
                    Some(q) => p@ == q@,
                    None => p@ == Seq::new(pre.pool.outcomes as nat, |i: int| 1u128),
                }
                &&& final(self).paused == old(self).paused
                &&& final(self).collateral_whitelist == old(self).collateral_whitelist
                &&& final(self).oracle == old(self).oracle
            }),
    {
        if market_id >= self.markets.len() as u64 {
            return Err(AmmError::UnknownMarket);
        }
        let id = market_id as usize;
        if self.markets[id].finalized {
            return Err(AmmError::AlreadyFinalized);
        }
        if self.markets[id].dr_creator.is_none() {
            return Err(AmmError::NoDataRequest);
        }
        let n = self.markets[id].pool.outcomes as usize;
        let payout = match payout_numerator {
            Some(p) => {
                if p.len() != n {
                    return Err(AmmError::ValidationError);
                }
                match checked_sum(&p) {
                    Some(total) => {
                        if total == 0 {
                            return Err(AmmError::ValidationError);
                        }
                    },
                    None => {
                        return Err(AmmError::ValidationError);
                    },
                }
                p
            },
            None => {
                if n == 0 {
                    return Err(AmmError::ValidationError);
                }
                let mut p: Vec<u128> = Vec::new();
                let mut i: usize = 0;
                while i < n
                    invariant
                        i <= n,
                        p@.len() == i,
                        forall|j: int| 0 <= j < i ==> #[trigger] p@[j] == 1,
                        seq_sum(p@) == i,
                    decreases n - i,
                {
                    let ghost before = p@;
                    p.push(1);
                    assert(p@.drop_last() =~= before);
                    i += 1;
                }
                assert(p@ =~= Seq::new(n as nat, |i: int| 1u128));
                p
            },
        };
        let ghost pre = *self;
        self.markets[id].payout_numerator = Some(payout);
        self.markets[id].finalized = true;
        proof {
            assert(self.markets@ =~= pre.markets@.update(id as int, self.markets@[id as int]));
            assert forall|j: int| 0 <= j < self.markets@.len() implies (#[trigger] self.markets@[j]).wf() by {
                if j != id {
                    assert(self.markets@[j] == pre.markets@[j]);
                }
            }
        }
        Ok(())
    }

    /// Pays `sender` for everything it holds in resolved market `market_id`
    /// and clears its holding; returns the collateral owed.
    pub fn claim_earnings(&mut self, sender: &String, market_id: u64) -> (r: Result<u128, AmmError>)
        requires
            old(self).wf(),
        ensures
            final(self).wf(),
            r.is_err() ==> AMMContract::same_state(*old(self), *final(self)),
            r == Err::<u128, AmmError>(AmmError::UnknownMarket) <==> market_id >= old(self).markets@.len(),
            r == Err::<u128, AmmError>(AmmError::NotFinalized) <==> market_id < old(self).markets@.len()
                && !old(self).markets@[market_id as int].finalized,
            r == Err::<u128, AmmError>(AmmError::NothingToClaim) <==> market_id < old(self).markets@.len()
                && old(self).markets@[market_id as int].finalized
                && old(self).markets@[market_id as int].pool.holds_nothing(sender@),
            r is Err ==> r == Err::<u128, AmmError>(AmmError::UnknownMarket) || r == Err::<u128, AmmError>(
                AmmError::NotFinalized,
            ) || r == Err::<u128, AmmError>(AmmError::NothingToClaim) || r == Err::<u128, AmmError>(
                AmmError::Math(MathError::ArithmeticOverflow),
            ),
            r is Ok <==> market_id < old(self).markets@.len() && old(self).markets@[market_id as int].finalized
                && !old(self).markets@[market_id as int].pool.holds_nothing(sender@)
                && old(self).markets@[market_id as int].pool.claim_fits(
                sender@,
                old(self).markets@[market_id as int].payout_numerator.unwrap()@,
                seq_sum(old(self).markets@[market_id as int].payout_numerator.unwrap()@),
            ),
            r is Ok ==> ({
                let pre = old(self).markets@[market_id as int];
                let post = final(self).markets@[market_id as int];
                let p = pre.payout_numerator.unwrap()@;
                &&& AMMContract::only_pool_changed(*old(self), *final(self), market_id as int)
                &&& r->Ok_0 == pre.pool.payout_sum(sender@, p, seq_sum(p), pre.pool.outcomes as int)
                    + pre.pool.fee_claim(sender@)
                &&& post.pool.holds_nothing(sender@)
                &&& forall|a: Seq<char>, o: int| a != sender@ ==> #[trigger] post.pool.balance(a, o)
                    == pre.pool.balance(a, o)
            }),
    {
        if market_id >= self.markets.len() as u64 {
            return Err(AmmError::UnknownMarket);
        }
        let id = market_id as usize;
        if !self.markets[id].finalized {
            return Err(AmmError::NotFinalized);
        }
        let den = match &self.markets[id].payout_numerator {
            Some(p) => match checked_sum(p) {
                Some(v) => v,
                None => {
                    return Err(AmmError::Math(MathError::ArithmeticOverflow));
                },
            },
            None => {
                return Err(AmmError::NotFinalized);
            },
        };
        let payout = match &self.markets[id].payout_numerator {
            Some(p) => copy_amounts(p),
            None => {
                return Err(AmmError::NotFinalized);
            },
        };
        let ghost pre = *self;
        let r = self.markets[id].pool.claim(sender, &payout, den);
        proof {
            if r.is_err() {
                assert(self.markets@[id as int] == pre.markets@[id as int]);
                assert(self.markets@ =~= pre.markets@);
            }
            assert(forall|j: int| 0 <= j < self.markets@.len() && j != id ==> self.markets@[j] == pre.markets@[j]);
            assert(self.markets@[id as int].wf());
            assert(Market::same_but_pool(pre.markets@[id as int], self.markets@[id as int]));
        }
        r
    }

    /// The spot price of `outcome` in market `market_id`, scaled by the
    /// collateral's denomination.
    pub fn get_spot_price(&self, market_id: u64, outcome: u16) -> (r: Result<u128, AmmError>)
        ensures
            market_id >= self.markets@.len() ==> r == Err::<u128, AmmError>(AmmError::UnknownMarket),
            market_id < self.markets@.len() && outcome >= self.markets@[market_id as int].pool.reserves@.len()
                ==> r == Err::<u128, AmmError>(AmmError::InvalidOutcome),
            r is Ok ==> ({
                let pool = self.markets@[market_id as int].pool;
                r->Ok_0 == spot_price(pool.reserves@, outcome as int, pool.collateral_denomination as int)
            }),
            r matches Err(AmmError::Math(e)) ==> e == MathError::ArithmeticOverflow || e == MathError::DivisionByZero,
            r is Ok <==> market_id < self.markets@.len() && outcome < self.markets@[market_id as int].pool.reserves@.len()
                && price_fits(
                self.markets@[market_id as int].pool.reserves@,
                outcome as int,
                self.markets@[market_id as int].pool.collateral_denomination as int,
            ) && odds_weight_sum(
                self.markets@[market_id as int].pool.reserves@,
                self.markets@[market_id as int].pool.reserves@.len() as int,
            ) != 0,
    {
        if market_id >= self.markets.len() as u64 {
            return Err(AmmError::UnknownMarket);
        }
        let pool = &self.markets[market_id as usize].pool;
        if outcome as usize >= pool.reserves.len() {
            return Err(AmmError::InvalidOutcome);
        }
        match compute_spot_price(&pool.reserves, outcome as usize, pool.collateral_denomination) {
            Ok(v) => Ok(v),
            Err(e) => Err(AmmError::Math(e)),
        }
    }

    /// Shares of `outcome_target` that `collateral_in` would buy in market `market_id` now.
    pub fn calc_buy_amount(&self, market_id: u64, collateral_in: u128, outcome_target: u16) -> (r: Result<u128, AmmError>)
        requires
            self.wf(),
        ensures
            market_id >= self.markets@.len() ==> r == Err::<u128, AmmError>(AmmError::UnknownMarket),
            market_id < self.markets@.len() && outcome_target >= self.markets@[market_id as int].pool.outcomes
                ==> r == Err::<u128, AmmError>(AmmError::InvalidOutcome),
            r is Ok ==> ({
                let pool = self.markets@[market_id as int].pool;
                r->Ok_0 == buy_amount(pool.reserves@, outcome_target as int, collateral_in as int, pool.swap_fee as int)
            }),
            r is Ok <==> market_id < self.markets@.len() && outcome_target < self.markets@[market_id as int].pool.outcomes
                && self.markets@[market_id as int].pool.swap_fee <= FEE_DENOMINATOR
                && buy_fits(
                self.markets@[market_id as int].pool.reserves@,
                outcome_target as int,
                collateral_in as int,
                self.markets@[market_id as int].pool.swap_fee as int,
            ) && shifted_product(
                self.markets@[market_id as int].pool.reserves@,
                outcome_target as int,
                net_of_fee(collateral_in as int, self.markets@[market_id as int].pool.swap_fee as int),
                self.markets@[market_id as int].pool.outcomes as int,
            ) != 0,
    {
        if market_id >= self.markets.len() as u64 {
            return Err(AmmError::UnknownMarket);
        }
        let pool = &self.markets[market_id as usize].pool;
        if outcome_target >= pool.outcomes {
            return Err(AmmError::InvalidOutcome);
        }
        if pool.swap_fee > FEE_DENOMINATOR {
            return Err(AmmError::ValidationError);
        }
        match compute_buy_amount(&pool.reserves, outcome_target as usize, collateral_in, pool.swap_fee) {
            Ok(v) => Ok(v),
            Err(e) => Err(AmmError::Math(e)),
        }
    }

    /// Shares of `outcome_target` that a sale for `collateral_out` would take in
    /// market `market_id` now.
    pub fn calc_sell_collateral_out(&self, market_id: u64, collateral_out: u128, outcome_target: u16) -> (r: Result<u128, AmmError>)
        requires
            self.wf(),
        ensures
            market_id >= self.markets@.len() ==> r == Err::<u128, AmmError>(AmmError::UnknownMarket),
            market_id < self.markets@.len() && outcome_target >= self.markets@[market_id as int].pool.outcomes
                ==> r == Err::<u128, AmmError>(AmmError::InvalidOutcome),
            r is Ok ==> ({
                let pool = self.markets@[market_id as int].pool;
                r->Ok_0 == sell_amount(pool.reserves@, outcome_target as int, collateral_out as int, pool.swap_fee as int)
            }),
            r is Ok <==> market_id < self.markets@.len() && outcome_target < self.markets@[market_id as int].pool.outcomes
                && self.markets@[market_id as int].pool.swap_fee <= FEE_DENOMINATOR
                && sell_ok(
                self.markets@[market_id as int].pool.reserves@,
                outcome_target as int,
                collateral_out as int,
                self.markets@[market_id as int].pool.swap_fee as int,
            ),
    {
        if market_id >= self.markets.len() as u64 {
            return Err(AmmError::UnknownMarket);
        }
        let pool = &self.markets[market_id as usize].pool;
        if outcome_target >= pool.outcomes {
            return Err(AmmError::InvalidOutcome);
        }
        if pool.swap_fee > FEE_DENOMINATOR {
            return Err(AmmError::ValidationError);
        }
        match compute_sell_amount(&pool.reserves, outcome_target as usize, collateral_out, pool.swap_fee) {
            Ok(v) => Ok(v),
            Err(e) => Err(AmmError::Math(e)),
        }
    }
}

/// `v` held within `[lo, hi]`.
pub open spec fn clamp(v: int, lo: int, hi: int) -> int {
    if v < lo {
        lo
    } else if v > hi {
        hi
    } else {
        v
    }
}

/// The payout numerators of a scalar market whose answer `value` fell in the
/// range `[lower, upper]`: the long outcome (first) is paid in proportion to
/// how far above `lower` the answer lies, the short outcome (second) to how
/// far below `upper`. An answer outside the range counts as its nearest end.
pub fn scalar_payout_numerator(value: u128, lower: u128, upper: u128) -> (r: Result<Vec<u128>, AmmError>)
    ensures
        r is Err <==> lower >= upper,
        r is Err ==> r == Err::<Vec<u128>, AmmError>(AmmError::ValidationError),
        r is Ok ==> ({
            let v = clamp(value as int, lower as int, upper as int);
            &&& r->Ok_0@ == seq![(v - lower) as u128, (upper - v) as u128]
            &&& payout_valid(r->Ok_0@, 2)
        }),
{
    if lower >= upper {
        return Err(AmmError::ValidationError);
    }
    let v = if value < lower {
        lower
    } else if value > upper {
        upper
    } else {
        value
    };
    let mut p: Vec<u128> = Vec::new();
    p.push(v - lower);
    p.push(upper - v);
    assert(p@ =~= seq![(v - lower) as u128, (upper - v) as u128]);
    assert(p@.drop_last().drop_last() =~= Seq::<u128>::empty());
    assert(seq_sum(p@.drop_last().drop_last()) == 0);
    assert(seq_sum(p@.drop_last()) == v - lower);
    assert(seq_sum(p@) == upper - lower);
    Ok(p)
}

} // verus!
