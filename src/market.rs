//! Markets and the contract state that holds them: market creation, the
//! trading gate, and trading and liquidity operations routed to a market's pool.
use vstd::prelude::*;
use crate::pool::{AmmError, Pool};
use crate::pool_math::FEE_DENOMINATOR;

verus! {

/// Where the oracle looks for the answer to a data request.
pub struct Source {
    pub end_point: String,
    pub source_path: String,
}

/// A token accepted as collateral, with its decimal precision.
pub struct CollateralToken {
    pub account_id: String,
    pub decimals: u32,
}

/// What a caller supplies to create a market.
pub struct CreateMarketArgs {
    pub description: String,
    pub extra_info: String,
    pub outcomes: u16,
    pub outcome_tags: Vec<String>,
    pub categories: Vec<String>,
    pub end_time: u64,
    pub resolution_time: u64,
    pub collateral_token_id: String,
    pub swap_fee: u128,
    pub is_scalar: bool,
    pub scalar_multiplier: Option<u128>,
    pub challenge_period: u64,
    pub sources: Vec<Source>,
}

/// One prediction market and its pool.
pub struct Market {
    pub end_time: u64,
    pub resolution_time: u64,
    pub pool: Pool,
    pub payout_numerator: Option<Vec<u128>>,
    pub finalized: bool,
    pub enabled: bool,
    pub is_scalar: bool,
    pub outcome_tags: Vec<String>,
    pub scalar_multiplier: Option<u128>,
    pub payment_token: Option<String>,
    pub dr_creator: Option<String>,
    pub validity_bond: Option<u128>,
    pub challenge_period: u64,
    pub description: String,
    pub extra_info: String,
    pub sources: Vec<Source>,
}

/// The sum of `s`.
pub open spec fn seq_sum(s: Seq<u128>) -> int
    decreases s.len(),
{
    if s.len() == 0 {
        0
    } else {
        seq_sum(s.drop_last()) + s.last()
    }
}

/// A payout distribution: one numerator per outcome, with a positive sum that fits in `u128`.
pub open spec fn payout_valid(p: Seq<u128>, n: int) -> bool {
    p.len() == n && 0 < seq_sum(p) <= u128::MAX
}

/// `10` to the power `d`.
pub open spec fn pow10(d: nat) -> int
    decreases d,
{
    if d == 0 {
        1
    } else {
        10 * pow10((d - 1) as nat)
    }
}

/// The decimals of the last whitelisted entry for `token`, if any.
pub open spec fn token_decimals(wl: Seq<CollateralToken>, token: Seq<char>) -> Option<u32>
    decreases wl.len(),
{
    if wl.len() == 0 {
        None
    } else if wl.last().account_id@ == token {
        Some(wl.last().decimals)
    } else {
        token_decimals(wl.drop_last(), token)
    }
}

impl Market {
    /// A well-formed market: its pool is well-formed, it ends before it is
    /// resolved, it has one tag per outcome, and it is finalized exactly when
    /// it has a valid payout distribution.
    pub open spec fn wf(&self) -> bool {
        &&& self.pool.wf()
        &&& self.end_time <= self.resolution_time
        &&& self.outcome_tags@.len() == self.pool.outcomes
        &&& (self.finalized <==> self.payout_numerator.is_some())
        &&& (self.payout_numerator matches Some(p) ==> payout_valid(p@, self.pool.outcomes as int))
    }

    /// `post` is `pre` with at most its pool changed.
    pub open spec fn same_but_pool(pre: Market, post: Market) -> bool {
        post == Market { pool: post.pool, ..pre }
    }
}

/// No token appears twice on the whitelist.
pub open spec fn whitelist_unique(wl: Seq<CollateralToken>) -> bool {
    forall|i: int, j: int|
        0 <= i < wl.len() && 0 <= j < wl.len() && i != j ==> wl[i].account_id@ != wl[j].account_id@
}

/// A market can be created from `p` at time `now` with whitelist `wl`.
pub open spec fn create_valid(wl: Seq<CollateralToken>, p: CreateMarketArgs, now: u64) -> bool {
    &&& token_decimals(wl, p.collateral_token_id@).is_some()
    &&& pow10(token_decimals(wl, p.collateral_token_id@).unwrap() as nat) <= u128::MAX
    &&& p.outcome_tags@.len() == p.outcomes
    &&& p.end_time > now
    &&& p.resolution_time >= p.end_time
}

/// The contract state: every market ever created, in order of creation.
pub struct AMMContract {
    pub markets: Vec<Market>,
    pub paused: bool,
    pub collateral_whitelist: Vec<CollateralToken>,
    pub oracle: String,
}

/// Powers of ten grow with the exponent.
proof fn lemma_pow10_grows(a: nat, b: nat)
    requires
        a <= b,
    ensures
        1 <= pow10(a) <= pow10(b),
    decreases b,
{
    if b > 0 && a < b {
        lemma_pow10_grows(a, (b - 1) as nat);
    } else if b > 0 {
        lemma_pow10_grows(0, (b - 1) as nat);
    }
}

/// `10` to the power `d`, or `None` where it exceeds `u128`.
fn checked_pow10(d: u32) -> (r: Option<u128>)
    ensures
        r.is_some() <==> pow10(d as nat) <= u128::MAX,
        r.is_some() ==> r.unwrap() == pow10(d as nat),
{
    let mut acc: u128 = 1;
    let mut i: u32 = 0;
    while i < d
        invariant
            i <= d,
            acc == pow10(i as nat),
        decreases d - i,
    {
        match acc.checked_mul(10) {
            Some(v) => {
                acc = v;
            },
            None => {
                proof {
                    lemma_pow10_grows((i + 1) as nat, d as nat);
                }
                return None;
            },
        }
        i += 1;
    }
    Some(acc)
}

/// A copy of the strings of `v`.
pub(crate) fn copy_strings(v: &Vec<String>) -> (r: Vec<String>)
    ensures
        r@ == v@,
{
    let mut r: Vec<String> = Vec::new();
    let mut i: usize = 0;
    while i < v.len()
        invariant
            i <= v.len(),
            r@ == v@.take(i as int),
        decreases v.len() - i,
    {
        r.push(v[i].clone());
        i += 1;
        assert(r@ =~= v@.take(i as int));
    }
    assert(v@.take(v.len() as int) =~= v@);
    r
}

/// A copy of the sources of `v`.
pub(crate) fn copy_sources(v: &Vec<Source>) -> (r: Vec<Source>)
    ensures
        r@ == v@,
{
    let mut r: Vec<Source> = Vec::new();
    let mut i: usize = 0;
    while i < v.len()
        invariant
            i <= v.len(),
            r@ == v@.take(i as int),
        decreases v.len() - i,
    {
        let s = Source { end_point: v[i].end_point.clone(), source_path: v[i].source_path.clone() };
        r.push(s);
        i += 1;
        assert(r@ =~= v@.take(i as int));
    }
    assert(v@.take(v.len() as int) =~= v@);
    r
}

impl AMMContract {
    /// Every market is well-formed, and no token is whitelisted twice.
    pub open spec fn wf(&self) -> bool {
        &&& forall|i: int| 0 <= i < self.markets@.len() ==> (#[trigger] self.markets@[i]).wf()
        &&& whitelist_unique(self.collateral_whitelist@)
    }

    /// The error that keeps trading away from market `id` at time `now`, if any.
    pub open spec fn gate_error(&self, id: u64, now: u64) -> Option<AmmError> {
        if self.paused {
            Some(AmmError::Paused)
        } else if id >= self.markets@.len() {
            Some(AmmError::UnknownMarket)
        } else if !self.markets@[id as int].enabled {
            Some(AmmError::MarketNotEnabled)
        } else if self.markets@[id as int].finalized {
            Some(AmmError::AlreadyFinalized)
        } else if now >= self.markets@[id as int].end_time {
            Some(AmmError::MarketEnded)
        } else {
            None
        }
    }

    /// `post` holds the same markets and settings as `pre`.
    pub open spec fn same_state(pre: AMMContract, post: AMMContract) -> bool {
        &&& post.markets@ == pre.markets@
        &&& post.paused == pre.paused
        &&& post.collateral_whitelist == pre.collateral_whitelist
        &&& post.oracle == pre.oracle
    }

    /// `post` is `pre` with at most the pool of market `id` changed.
    pub open spec fn only_pool_changed(pre: AMMContract, post: AMMContract, id: int) -> bool {
        &&& post.markets@.len() == pre.markets@.len()
        &&& forall|j: int| 0 <= j < pre.markets@.len() && j != id ==> post.markets@[j] == pre.markets@[j]
        &&& Market::same_but_pool(pre.markets@[id], post.markets@[id])
        &&& post.paused == pre.paused
        &&& post.collateral_whitelist == pre.collateral_whitelist
        &&& post.oracle == pre.oracle
    }

    /// A contract with no markets.
    pub fn new(oracle: String, collateral_whitelist: Vec<CollateralToken>) -> (r: AMMContract)
        requires
            whitelist_unique(collateral_whitelist@),
        ensures
            r.wf(),
            r.markets@.len() == 0,
            !r.paused,
            r.oracle == oracle,
            r.collateral_whitelist == collateral_whitelist,
    {
        AMMContract { markets: Vec::new(), paused: false, collateral_whitelist, oracle }
    }

    /// The number of markets created so far.
    pub fn market_count(&self) -> (r: u64)
        ensures
            r == self.markets@.len(),
    {
        self.markets.len() as u64
    }

    /// The decimals of `token` on the whitelist.
    fn whitelisted_decimals(&self, token: &String) -> (r: Option<u32>)
        ensures
            r == token_decimals(self.collateral_whitelist@, token@),
    {
        let mut k: usize = self.collateral_whitelist.len();
        assert(self.collateral_whitelist@.take(k as int) =~= self.collateral_whitelist@);
        while k > 0
            invariant
                k <= self.collateral_whitelist@.len(),
                token_decimals(self.collateral_whitelist@, token@) == token_decimals(
                    self.collateral_whitelist@.take(k as int),
                    token@,
                ),
            decreases k,
        {
            let ghost wl = self.collateral_whitelist@.take(k as int);
            assert(wl.drop_last() =~= self.collateral_whitelist@.take(k - 1));
            if self.collateral_whitelist[k - 1].account_id == *token {
                return Some(self.collateral_whitelist[k - 1].decimals);
            }
            k -= 1;
        }
        None
    }

    /// Creates a market from `payload` at time `now` (ms) and returns its id,
    /// the next in sequence. The market is built disabled and enabled once its
    /// pool exists. It asks for a whitelisted token, one tag per outcome, an end
    /// in the future, a resolution no earlier than the end, and a token
    /// denomination that fits in `u128`. A fee above `FEE_DENOMINATOR` makes the
    /// market's trades fail, and a scalar market without a multiplier cannot
    /// request data; neither stops creation.
    pub fn create_market(&mut self, payload: &CreateMarketArgs, now: u64) -> (r: Result<u64, AmmError>)
        requires
            old(self).wf(),
        ensures
            final(self).wf(),
            r.is_err() ==> *final(self) == *old(self),
            r == Err::<u64, AmmError>(AmmError::Paused) <==> old(self).paused,
            r is Ok <==> !old(self).paused && create_valid(old(self).collateral_whitelist@, *payload, now),
            r == Err::<u64, AmmError>(AmmError::ValidationError) <==> !old(self).paused && !create_valid(
                old(self).collateral_whitelist@,
                *payload,
                now,
            ),
            r is Ok ==> ({
                let id = r->Ok_0 as int;
                let m = final(self).markets@[id];
                let decimals = token_decimals(old(self).collateral_whitelist@, payload.collateral_token_id@).unwrap();
                &&& id == old(self).markets@.len()
                &&& final(self).markets@.len() == id + 1
                &&& final(self).markets@.take(id) == old(self).markets@
                &&& final(self).paused == old(self).paused
                &&& final(self).collateral_whitelist == old(self).collateral_whitelist
                &&& final(self).oracle == old(self).oracle
                &&& m.enabled && !m.finalized && m.payout_numerator.is_none()
                &&& m.end_time == payload.end_time && m.resolution_time == payload.resolution_time
                &&& m.outcome_tags@ == payload.outcome_tags@
                &&& m.is_scalar == payload.is_scalar && m.scalar_multiplier == payload.scalar_multiplier
                &&& m.challenge_period == payload.challenge_period
                &&& m.description == payload.description && m.extra_info == payload.extra_info
                &&& m.sources@ == payload.sources@
                &&& m.payment_token.is_none() && m.dr_creator.is_none() && m.validity_bond.is_none()
                &&& m.pool.market_id == id && m.pool.outcomes == payload.outcomes
                &&& m.pool.swap_fee == payload.swap_fee
                &&& m.pool.collateral_token_id@ == payload.collateral_token_id@
                &&& m.pool.collateral_denomination == pow10(decimals as nat)
                &&& m.pool.pool_token_supply == 0 && m.pool.fee_pool == 0 && m.pool.holdings@.len() == 0
                &&& forall|o: int| 0 <= o < payload.outcomes ==> m.pool.reserves@[o] == 0
            }),
    {
        if self.paused {
            return Err(AmmError::Paused);
        }
        let decimals = match self.whitelisted_decimals(&payload.collateral_token_id) {
            Some(d) => d,
            None => {
                return Err(AmmError::ValidationError);
            },
        };
        let denomination = match checked_pow10(decimals) {
            Some(v) => v,
            None => {
                return Err(AmmError::ValidationError);
            },
        };
        if payload.outcome_tags.len() != payload.outcomes as usize {
            return Err(AmmError::ValidationError);
        }
        if payload.end_time <= now || payload.resolution_time < payload.end_time {
            return Err(AmmError::ValidationError);
        }
        let market_id = self.markets.len() as u64;
        let pool = Pool::new(
            market_id,
            payload.outcomes,
            payload.collateral_token_id.clone(),
            denomination,
            payload.swap_fee,
        );
        let mut market = Market {
            end_time: payload.end_time,
            resolution_time: payload.resolution_time,
            pool,
            payout_numerator: None,
            finalized: false,
            enabled: false,
            is_scalar: payload.is_scalar,
            outcome_tags: copy_strings(&payload.outcome_tags),
            scalar_multiplier: payload.scalar_multiplier,
            payment_token: None,
            dr_creator: None,
            validity_bond: None,
            challenge_period: payload.challenge_period,
            description: payload.description.clone(),
            extra_info: payload.extra_info.clone(),
            sources: copy_sources(&payload.sources),
        };
        market.enabled = true;
        let ghost pre = self.markets@;
        self.markets.push(market);
        assert(self.markets@.take(market_id as int) =~= pre);
        Ok(market_id)
    }

    /// Checks that market `market_id` is open for trading at time `now`.
    pub fn check_trading(&self, market_id: u64, now: u64) -> (r: Result<(), AmmError>)
        ensures
            r.is_ok() <==> self.gate_error(market_id, now).is_none(),
            r.is_err() ==> r == Err::<(), AmmError>(self.gate_error(market_id, now).unwrap()),
    {
        if self.paused {
            return Err(AmmError::Paused);
        }
        if market_id >= self.markets.len() as u64 {
            return Err(AmmError::UnknownMarket);
        }
        let m = &self.markets[market_id as usize];
        if !m.enabled {
            return Err(AmmError::MarketNotEnabled);
        }
        if m.finalized {
            return Err(AmmError::AlreadyFinalized);
        }
        if now >= m.end_time {
            return Err(AmmError::MarketEnded);
        }
        Ok(())
    }
}

} // verus!
