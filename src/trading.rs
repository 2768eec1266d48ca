//! Trading and liquidity entry points of the contract: each checks that the
//! market is open, then applies the operation to the market's pool.
use vstd::prelude::*;
use crate::market::{AMMContract, Market};
use crate::pool::{AmmError, Pool};

verus! {

/// Arguments of a buy that arrives with a collateral transfer.
pub struct BuyArgs {
    pub market_id: u64,
    pub outcome_target: u16,
    pub min_shares_out: u128,
}

/// Arguments of a liquidity deposit that arrives with a collateral transfer.
pub struct AddLiquidityArgs {
    pub market_id: u64,
    pub weight_indication: Option<Vec<u128>>,
}

/// Arguments of a sale of outcome shares.
pub struct SellArgs {
    pub market_id: u64,
    pub collateral_out: u128,
    pub outcome_target: u16,
    pub max_shares_in: u128,
}

impl AMMContract {
    /// Buys shares of `payload.outcome_target` in market `payload.market_id`
    /// with `collateral_in` on behalf of `sender`; returns the shares bought.
    pub fn buy(&mut self, sender: &String, collateral_in: u128, payload: BuyArgs, now: u64) -> (r: Result<u128, AmmError>)
        requires
            old(self).wf(),
        ensures
            final(self).wf(),
            old(self).gate_error(payload.market_id, now) matches Some(e) ==> r == Err::<u128, AmmError>(e)
                && *final(self) == *old(self),
            old(self).gate_error(payload.market_id, now).is_none() ==> AMMContract::only_pool_changed(
                *old(self),
                *final(self),
                payload.market_id as int,
            ) && Pool::buy_post(
                old(self).markets@[payload.market_id as int].pool,
                final(self).markets@[payload.market_id as int].pool,
                *sender,
                collateral_in,
                payload.outcome_target,
                payload.min_shares_out,
                r,
            ),
    {
        match self.check_trading(payload.market_id, now) {
            Ok(()) => {},
            Err(e) => {
                return Err(e);
            },
        }
        let market_id = payload.market_id;
        let count = self.markets.len();
        assert(market_id < count);
        let id = market_id as usize;
        let ghost pre = *self;
        let r = self.markets[id].pool.buy(sender, collateral_in, payload.outcome_target, payload.min_shares_out);
        proof {
            assert(forall|j: int| 0 <= j < self.markets@.len() && j != id ==> self.markets@[j] == pre.markets@[j]);
            assert(self.markets@[id as int].wf());
            assert(Market::same_but_pool(pre.markets@[id as int], self.markets@[id as int]));
            assert(self.markets@.len() == pre.markets@.len());
            assert(AMMContract::only_pool_changed(pre, *self, id as int));
            assert(id as int == market_id as int);
        }
        r
    }

    /// Sells shares of `payload.outcome_target` in market `payload.market_id`
    /// so that `payload.collateral_out` reaches `sender`; returns the shares taken.
    pub fn sell(&mut self, sender: &String, payload: SellArgs, now: u64) -> (r: Result<u128, AmmError>)
        requires
            old(self).wf(),
        ensures
            final(self).wf(),
            old(self).gate_error(payload.market_id, now) matches Some(e) ==> r == Err::<u128, AmmError>(e)
                && *final(self) == *old(self),
            old(self).gate_error(payload.market_id, now).is_none() ==> AMMContract::only_pool_changed(
                *old(self),
                *final(self),
                payload.market_id as int,
            ) && Pool::sell_post(
                old(self).markets@[payload.market_id as int].pool,
                final(self).markets@[payload.market_id as int].pool,
                *sender,
                payload.collateral_out,
                payload.outcome_target,
                payload.max_shares_in,
                r,
            ),
    {
        match self.check_trading(payload.market_id, now) {
            Ok(()) => {},
            Err(e) => {
                return Err(e);
            },
        }
        let market_id = payload.market_id;
        let count = self.markets.len();
        assert(market_id < count);
        let id = market_id as usize;
        let ghost pre = *self;
        let r = self.markets[id].pool.sell(sender, payload.collateral_out, payload.outcome_target, payload.max_shares_in);
        proof {
            assert(forall|j: int| 0 <= j < self.markets@.len() && j != id ==> self.markets@[j] == pre.markets@[j]);
            assert(self.markets@[id as int].wf());
            assert(Market::same_but_pool(pre.markets@[id as int], self.markets@[id as int]));
            assert(self.markets@.len() == pre.markets@.len());
            assert(AMMContract::only_pool_changed(pre, *self, id as int));
            assert(id as int == market_id as int);
        }
        r
    }

    /// Adds `amount` of collateral as liquidity to market `payload.market_id`
    /// on behalf of `sender`; returns the LP shares minted.
    pub fn add_liquidity(&mut self, sender: &String, amount: u128, payload: AddLiquidityArgs, now: u64) -> (r: Result<u128, AmmError>)
        requires
            old(self).wf(),
        ensures
            final(self).wf(),
            old(self).gate_error(payload.market_id, now) matches Some(e) ==> r == Err::<u128, AmmError>(e)
                && *final(self) == *old(self),
            old(self).gate_error(payload.market_id, now).is_none() ==> AMMContract::only_pool_changed(
                *old(self),
                *final(self),
                payload.market_id as int,
            ) && Pool::add_liquidity_post(
                old(self).markets@[payload.market_id as int].pool,
                final(self).markets@[payload.market_id as int].pool,
                *sender,
                amount,
                payload.weight_indication,
                r,
            ),
    {
        match self.check_trading(payload.market_id, now) {
            Ok(()) => {},
            Err(e) => {
                return Err(e);
            },
        }
        let market_id = payload.market_id;
        let count = self.markets.len();
        assert(market_id < count);
        let id = market_id as usize;
        let ghost pre = *self;
        let r = self.markets[id].pool.add_liquidity(sender, amount, payload.weight_indication);
        proof {
            assert(forall|j: int| 0 <= j < self.markets@.len() && j != id ==> self.markets@[j] == pre.markets@[j]);
            assert(self.markets@[id as int].wf());
            assert(Market::same_but_pool(pre.markets@[id as int], self.markets@[id as int]));
            assert(self.markets@.len() == pre.markets@.len());
            assert(AMMContract::only_pool_changed(pre, *self, id as int));
            assert(id as int == market_id as int);
        }
        r
    }

    /// Burns `lp_shares_in` LP shares of `sender` in market `market_id`; returns
    /// the collected fees owed to `sender` for them.
    pub fn exit_liquidity(&mut self, sender: &String, market_id: u64, lp_shares_in: u128, now: u64) -> (r: Result<u128, AmmError>)
        requires
            old(self).wf(),
        ensures
            final(self).wf(),
            old(self).gate_error(market_id, now) matches Some(e) ==> r == Err::<u128, AmmError>(e)
                && *final(self) == *old(self),
            old(self).gate_error(market_id, now).is_none() ==> AMMContract::only_pool_changed(
                *old(self),
                *final(self),
                market_id as int,
            ) && Pool::exit_liquidity_post(
                old(self).markets@[market_id as int].pool,
                final(self).markets@[market_id as int].pool,
                *sender,
                lp_shares_in,
                r,
            ),
    {
        match self.check_trading(market_id, now) {
            Ok(()) => {},
            Err(e) => {
                return Err(e);
            },
        }
        let count = self.markets.len();
        assert(market_id < count);
        let id = market_id as usize;
        let ghost pre = *self;
        let r = self.markets[id].pool.exit_liquidity(sender, lp_shares_in);
        proof {
            assert(forall|j: int| 0 <= j < self.markets@.len() && j != id ==> self.markets@[j] == pre.markets@[j]);
            assert(self.markets@[id as int].wf());
            assert(Market::same_but_pool(pre.markets@[id as int], self.markets@[id as int]));
            assert(self.markets@.len() == pre.markets@.len());
            assert(AMMContract::only_pool_changed(pre, *self, id as int));
            assert(id as int == market_id as int);
        }
        r
    }

    /// Burns `amount` of every outcome share that `sender` holds in market
    /// `market_id`; returns the collateral owed for the full sets.
    pub fn redeem_collateral(&mut self, sender: &String, market_id: u64, amount: u128, now: u64) -> (r: Result<u128, AmmError>)
        requires
            old(self).wf(),
        ensures
            final(self).wf(),
            old(self).gate_error(market_id, now) matches Some(e) ==> r == Err::<u128, AmmError>(e)
                && *final(self) == *old(self),
            old(self).gate_error(market_id, now).is_none() ==> AMMContract::only_pool_changed(
                *old(self),
                *final(self),
                market_id as int,
            ) && Pool::redeem_collateral_post(
                old(self).markets@[market_id as int].pool,
                final(self).markets@[market_id as int].pool,
                *sender,
                amount,
                r,
            ),
    {
        match self.check_trading(market_id, now) {
            Ok(()) => {},
            Err(e) => {
                return Err(e);
            },
        }
        let count = self.markets.len();
        assert(market_id < count);
        let id = market_id as usize;
        let ghost pre = *self;
        let r = self.markets[id].pool.redeem_collateral(sender, amount);
        proof {
            assert(forall|j: int| 0 <= j < self.markets@.len() && j != id ==> self.markets@[j] == pre.markets@[j]);
            assert(self.markets@[id as int].wf());
            assert(Market::same_but_pool(pre.markets@[id as int], self.markets@[id as int]));
            assert(self.markets@.len() == pre.markets@.len());
            assert(AMMContract::only_pool_changed(pre, *self, id as int));
            assert(id as int == market_id as int);
        }
        r
    }

    /// The reserves of the pool of market `market_id`.
    pub fn get_pool_balances(&self, market_id: u64) -> (r: Result<Vec<u128>, AmmError>)
        ensures
            market_id >= self.markets@.len() ==> r == Err::<Vec<u128>, AmmError>(AmmError::UnknownMarket),
            market_id < self.markets@.len() ==> r is Ok && r->Ok_0@ == self.markets@[market_id as int].pool.reserves@,
    {
        if market_id >= self.markets.len() as u64 {
            return Err(AmmError::UnknownMarket);
        }
        let b = &self.markets[market_id as usize].pool.reserves;
        let mut r: Vec<u128> = Vec::new();
        let mut i: usize = 0;
        while i < b.len()
            invariant
                i <= b.len(),
                r@ == b@.take(i as int),
            decreases b.len() - i,
        {
            r.push(b[i]);
            i += 1;
            assert(r@ =~= b@.take(i as int));
        }
        assert(b@.take(b.len() as int) =~= b@);
        Ok(r)
    }
}

} // verus!
