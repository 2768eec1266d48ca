//! Arguments of the pool-level calls, addressed by pool id.
use vstd::prelude::*;

verus! {

/// Seeds a pool with its first liquidity at the given weights.
pub struct SeedPool {
    pub pool_id: u64,
    pub denorm_weights: Vec<u128>,
}

/// Addresses the LP position of the caller in a pool.
pub struct LPPool {
    pub pool_id: u64,
}

/// Buys shares of `outcome_target`, expecting at least `min_shares_out`.
pub struct Buy {
    pub pool_id: u64,
    pub outcome_target: u16,
    pub min_shares_out: u128,
}

/// Sells shares of `outcome_target`, paying at most `max_shares_in`.
pub struct Sell {
    pub pool_id: u64,
    pub outcome_target: u16,
    pub max_shares_in: u128,
}

} // verus!
