//! Adding liquidity to a pool and exiting it.
//!
//! A deposit of `amount` mints `amount` shares of every outcome. Of outcome
//! `i` the pool keeps `amount * w[i] / max(w)`, where `w` are the indicated
//! weights on the first deposit and the current reserves afterwards; the rest
//! goes back to the depositor as outcome shares. Exiting hands the holder its
//! proportion of every reserve as outcome shares, and of the collected fees as
//! collateral.
use vstd::prelude::*;
use crate::pool::{copy_amounts, AmmError, Pool};
use crate::pool_math::MathError;
use crate::wide::{mul_div, scale_down};

verus! {

/// The largest element of `w`, or 0 when it is empty.
pub open spec fn seq_max(w: Seq<u128>) -> int
    decreases w.len(),
{
    if w.len() == 0 {
        0
    } else {
        let m = seq_max(w.drop_last());
        if w.last() > m {
            w.last() as int
        } else {
            m
        }
    }
}

/// Equal weights for `n` outcomes.
pub open spec fn uniform_weights(n: int) -> Seq<u128> {
    Seq::new(n as nat, |i: int| 1u128)
}

/// What a deposit of `amount` adds to reserve `i` when it follows weights `w`.
pub open spec fn deposit_share(amount: int, w: Seq<u128>, i: int) -> int {
    amount * w[i] / seq_max(w)
}

/// What exiting `lp_in` of `supply` LP shares takes out of an amount `r`.
pub open spec fn exit_share(r: int, lp_in: int, supply: int) -> int {
    r * lp_in / supply
}

/// Indicated weights are usable: one per outcome, none of them zero.
pub open spec fn weights_valid(w: Seq<u128>, n: int) -> bool {
    w.len() == n && forall|i: int| 0 <= i < n ==> #[trigger] w[i] > 0
}

/// `seq_max` bounds every element and is one of them.
pub proof fn lemma_seq_max(w: Seq<u128>)
    ensures
        seq_max(w) >= 0,
        forall|i: int| 0 <= i < w.len() ==> #[trigger] w[i] <= seq_max(w),
        w.len() > 0 ==> exists|i: int| 0 <= i < w.len() && #[trigger] w[i] == seq_max(w),
    decreases w.len(),
{
    if w.len() > 0 {
        let v = w.drop_last();
        lemma_seq_max(v);
        assert forall|i: int| 0 <= i < w.len() implies #[trigger] w[i] <= seq_max(w) by {
            if i < w.len() - 1 {
                assert(w[i] == v[i]);
            }
        }
        if w.last() > seq_max(v) {
            assert(w[w.len() - 1] == seq_max(w));
        } else if v.len() > 0 {
            let j = choose|j: int| 0 <= j < v.len() && #[trigger] v[j] == seq_max(v);
            assert(w[j] == seq_max(w));
        } else {
            assert(w[0] == seq_max(w));
        }
    }
}

/// The largest element of `w`.
fn max_of(w: &Vec<u128>) -> (r: u128)
    ensures
        r == seq_max(w@),
{
    let mut m: u128 = 0;
    let mut i: usize = 0;
    while i < w.len()
        invariant
            i <= w.len(),
            m == seq_max(w@.take(i as int)),
        decreases w.len() - i,
    {
        assert(w@.take(i as int + 1).drop_last() =~= w@.take(i as int));
        if w[i] > m {
            m = w[i];
        }
        i += 1;
    }
    assert(w@.take(w.len() as int) =~= w@);
    m
}

/// `amount * x / m` lies within `[0, amount]` when `x <= m`.
proof fn lemma_share_le(amount: int, x: int, m: int)
    requires
        amount >= 0,
        0 <= x <= m,
        m > 0,
    ensures
        0 <= amount * x / m <= amount,
{
    assert(amount * x <= amount * m) by (nonlinear_arith)
        requires
            amount >= 0,
            x <= m,
    ;
    assert(amount * x / m <= amount * m / m) by (nonlinear_arith)
        requires
            amount * x <= amount * m,
            m > 0,
    ;
    assert(amount * m / m == amount) by (nonlinear_arith)
        requires
            m > 0,
    ;
    assert(0 <= amount * x / m) by (nonlinear_arith)
        requires
            amount >= 0,
            x >= 0,
            m > 0,
    ;
}

impl Pool {
    /// The weights that a deposit follows: the indicated (or equal) weights
    /// while the pool has no LP shares, its reserves afterwards.
    pub open spec fn deposit_weights(&self, indication: Option<Vec<u128>>) -> Seq<u128> {
        if self.pool_token_supply == 0 {
            match indication {
                Some(w) => w@,
                None => uniform_weights(self.outcomes as int),
            }
        } else {
            self.reserves@
        }
    }

    /// LP shares minted for a deposit of `amount`.
    pub open spec fn lp_minted(&self, amount: int) -> int {
        if self.pool_token_supply == 0 {
            amount
        } else {
            amount * self.pool_token_supply / seq_max(self.reserves@)
        }
    }

    /// What `add_liquidity` leaves behind: `post` is the pool after the call on `pre`, `r` its result.
    /// Indicated weights are acceptable for a deposit into this pool: none at
    /// all, or, while the pool has no LP shares, one positive weight per outcome.
    pub open spec fn indication_ok(&self, weight_indication: Option<Vec<u128>>) -> bool {
        match weight_indication {
            Some(w) => self.pool_token_supply == 0 && weights_valid(w@, self.outcomes as int),
            None => true,
        }
    }

    /// A deposit of `amount` goes through: it is not empty, its weights are
    /// acceptable and not all zero, and every product and total stays within `u128`.
    pub open spec fn add_succeeds(pre: Pool, amount: u128, weight_indication: Option<Vec<u128>>) -> bool {
        let w = pre.deposit_weights(weight_indication);
        &&& amount > 0
        &&& pre.indication_ok(weight_indication)
        &&& seq_max(w) > 0
        &&& pre.pool_token_supply + pre.lp_minted(amount as int) <= u128::MAX
        &&& forall|i: int| 0 <= i < pre.outcomes ==> #[trigger] pre.minted@[i] + amount <= u128::MAX
    }

    pub open spec fn add_liquidity_post(
        pre: Pool,
        post: Pool,
        sender: String,
        amount: u128,
        weight_indication: Option<Vec<u128>>,
        r: Result<u128, AmmError>,
    ) -> bool {
        &&& (r is Ok <==> Pool::add_succeeds(pre, amount, weight_indication))
        &&& (r matches Err(e) ==> (e == AmmError::ValidationError || e == AmmError::InvalidWeights
            || e == AmmError::Math(MathError::DivisionByZero) || e == AmmError::Math(MathError::ArithmeticOverflow)))
        &&& (r.is_err() ==> post == pre)
        &&& (r == Err::<u128, AmmError>(AmmError::ValidationError) <==> amount == 0)
        &&& (r == Err::<u128, AmmError>(AmmError::InvalidWeights)
            <==> amount > 0 && match weight_indication { Some(w) => pre.pool_token_supply != 0
                || !weights_valid(w@, pre.outcomes as int), None => false, })
        &&& (r == Err::<u128, AmmError>(AmmError::Math(MathError::DivisionByZero))
            <==> amount > 0
                && pre.indication_ok(weight_indication)
                && seq_max(pre.deposit_weights(weight_indication)) == 0)
        &&& (r is Ok ==> ({
            let w = pre.deposit_weights(weight_indication);
            let lp = r->Ok_0 as int;
            &&& lp == pre.lp_minted(amount as int)
            &&& forall|i: int| 0 <= i < pre.outcomes
                ==> #[trigger] post.reserves@[i] == pre.reserves@[i] + deposit_share(amount as int, w, i)
            &&& forall|i: int| 0 <= i < pre.outcomes
                ==> #[trigger] post.minted@[i] == pre.minted@[i] + amount
            &&& forall|i: int| 0 <= i < pre.outcomes
                ==> #[trigger] post.share_balance(sender@, i) == pre.share_balance(sender@, i) + amount - deposit_share(amount as int, w, i)
            &&& post.lp_balance(sender@) == pre.lp_balance(sender@) + lp
            &&& post.pool_token_supply == pre.pool_token_supply + lp
            &&& post.fee_pool == pre.fee_pool
            &&& forall|a: Seq<char>, o: int| a != sender@
                ==> #[trigger] post.balance(a, o) == pre.balance(a, o)
        }))
        &&& (post.outcomes == pre.outcomes)
        &&& (post.market_id == pre.market_id)
        &&& (post.collateral_token_id == pre.collateral_token_id)
        &&& (post.collateral_denomination == pre.collateral_denomination)
        &&& (post.swap_fee == pre.swap_fee)
    }

    /// Adds `amount` of collateral to the pool on behalf of `sender` and
    /// returns the LP shares minted for it.
    pub fn add_liquidity(&mut self, sender: &String, amount: u128, weight_indication: Option<Vec<u128>>) -> (r: Result<u128, AmmError>)
        requires
            old(self).wf(),
        ensures
            final(self).wf(),
            Pool::add_liquidity_post(*old(self), *final(self), *sender, amount, weight_indication, r),

    {
        let n = self.outcomes as usize;
        if amount == 0 {
            return Err(AmmError::ValidationError);
        }
        let weights: Vec<u128>;
        if self.pool_token_supply == 0 {
            match weight_indication {
                Some(w) => {
                    if w.len() != n {
                        return Err(AmmError::InvalidWeights);
                    }
                    let mut i: usize = 0;
                    while i < n
                        invariant
                            self.wf(),
                            *self == *old(self),
                            amount > 0,
                            self.pool_token_supply == 0,
                            n == self.outcomes,
                            weight_indication == Some(w),
                            i <= n,
                            w@.len() == n,
                            forall|j: int| 0 <= j < i ==> #[trigger] w@[j] > 0,
                        decreases n - i,
                    {
                        if w[i] == 0 {
                            return Err(AmmError::InvalidWeights);
                        }
                        i += 1;
                    }
                    weights = w;
                },
                None => {
                    let mut w: Vec<u128> = Vec::new();
                    let mut i: usize = 0;
                    while i < n
                        invariant
                            i <= n,
                            w@.len() == i,
                            forall|j: int| 0 <= j < i ==> #[trigger] w@[j] == 1,
                        decreases n - i,
                    {
                        w.push(1);
                        i += 1;
                    }
                    assert(w@ =~= uniform_weights(n as int));
                    weights = w;
                },
            }
        } else {
            if weight_indication.is_some() {
                return Err(AmmError::InvalidWeights);
            }
            weights = copy_amounts(&self.reserves);
        }
        let m = max_of(&weights);
        if m == 0 {
            return Err(AmmError::Math(MathError::DivisionByZero));
        }
        proof {
            lemma_seq_max(weights@);
        }
        let lp: u128 = if self.pool_token_supply == 0 {
            amount
        } else {
            match mul_div(amount, self.pool_token_supply, m) {
                Some((v, _)) => v,
                None => {
                    return Err(AmmError::Math(MathError::ArithmeticOverflow));
                },
            }
        };
        let supply = match self.pool_token_supply.checked_add(lp) {
            Some(v) => v,
            None => {
                return Err(AmmError::Math(MathError::ArithmeticOverflow));
            },
        };
        assert(weights@ == self.deposit_weights(weight_indication));
        assert(lp == self.lp_minted(amount as int));
        let mut shares = self.shares_of(sender);
        let mut reserves: Vec<u128> = Vec::new();
        let mut minted: Vec<u128> = Vec::new();
        let mut i: usize = 0;
        while i < n
            invariant
                self.wf(),
                *self == *old(self),
                n == self.outcomes,
                i <= n,
                m > 0,
                amount > 0,
                weights@ == self.deposit_weights(weight_indication),
                lp == self.lp_minted(amount as int),
                self.pool_token_supply + lp <= u128::MAX,
                forall|j: int| 0 <= j < i ==> #[trigger] self.minted@[j] + amount <= u128::MAX,
                match weight_indication {
                    Some(w) => self.pool_token_supply == 0 && weights_valid(w@, n as int),
                    None => true,
                },
                self.pool_token_supply != 0 ==> seq_max(self.reserves@) > 0,
                m == seq_max(weights@),
                weights@.len() == n,
                forall|j: int| 0 <= j < n ==> #[trigger] weights@[j] <= m,
                shares@.len() == n,
                reserves@.len() == i,
                minted@.len() == i,
                forall|j: int| i <= j < n ==> #[trigger] shares@[j] == self.share_balance(sender@, j),
                forall|j: int| 0 <= j < i ==> #[trigger] shares@[j] == self.share_balance(sender@, j)
                    + amount - deposit_share(amount as int, weights@, j),
                forall|j: int| 0 <= j < i ==> #[trigger] reserves@[j] == self.reserves@[j]
                    + deposit_share(amount as int, weights@, j),
                forall|j: int| 0 <= j < i ==> #[trigger] minted@[j] == self.minted@[j] + amount,
            decreases n - i,
        {
            let kept = scale_down(amount, weights[i], m);
            proof {
                lemma_share_le(amount as int, weights@[i as int] as int, m as int);
                self.lemma_balance_bounds(sender@, i as int);
            }
            let mint = match self.minted[i].checked_add(amount) {
                Some(v) => v,
                None => {
                    assert(!(self.minted@[i as int] + amount <= u128::MAX));
                    return Err(AmmError::Math(MathError::ArithmeticOverflow));
                },
            };
            reserves.push(self.reserves[i] + kept);
            minted.push(mint);
            let cur = shares[i];
            shares.set(i, cur + (amount - kept));
            i += 1;
        }
        let cur_lp = self.lp_shares_of(sender);
        proof {
            self.lemma_balance_bounds(sender@, -1);
        }
        let ghost pre = *self;
        let ghost new_shares = shares@;
        self.commit(sender, reserves, minted, supply, self.fee_pool, shares, cur_lp + lp);
        proof {
            assert forall|o: int| 0 <= o < n implies #[trigger] self.share_balance(sender@, o)
                == new_shares[o] by {
                assert(self.balance(sender@, o) == new_shares[o]);
            }
        }
        Ok(lp)
    }

    /// What `exit_liquidity` leaves behind: `post` is the pool after the call on `pre`, `r` its result.
    pub open spec fn exit_liquidity_post(
        pre: Pool,
        post: Pool,
        sender: String,
        lp_shares_in: u128,
        r: Result<u128, AmmError>,
    ) -> bool {
        &&& (r matches Err(e)
            ==> (e == AmmError::ValidationError || e == AmmError::InsufficientLPBalance))
        &&& (r.is_err() ==> post == pre)
        &&& (r == Err::<u128, AmmError>(AmmError::ValidationError) <==> lp_shares_in == 0)
        &&& (r == Err::<u128, AmmError>(AmmError::InsufficientLPBalance)
            <==> lp_shares_in > 0 && pre.lp_balance(sender@) < lp_shares_in)
        &&& (r is Ok ==> ({
            let supply = pre.pool_token_supply as int;
            &&& r->Ok_0 == exit_share(pre.fee_pool as int, lp_shares_in as int, supply)
            &&& post.fee_pool == pre.fee_pool - r->Ok_0
            &&& forall|i: int| 0 <= i < pre.outcomes
                ==> #[trigger] post.reserves@[i] == pre.reserves@[i] - exit_share(pre.reserves@[i] as int, lp_shares_in as int, supply)
            &&& post.minted@ == pre.minted@
            &&& forall|i: int| 0 <= i < pre.outcomes
                ==> #[trigger] post.share_balance(sender@, i) == pre.share_balance(sender@, i) + exit_share(pre.reserves@[i] as int, lp_shares_in as int, supply)
            &&& post.lp_balance(sender@) == pre.lp_balance(sender@) - lp_shares_in
            &&& post.pool_token_supply == supply - lp_shares_in
            &&& forall|a: Seq<char>, o: int| a != sender@
                ==> #[trigger] post.balance(a, o) == pre.balance(a, o)
        }))
        &&& (post.outcomes == pre.outcomes)
        &&& (post.market_id == pre.market_id)
        &&& (post.collateral_token_id == pre.collateral_token_id)
        &&& (post.collateral_denomination == pre.collateral_denomination)
        &&& (post.swap_fee == pre.swap_fee)
    }

    /// Burns `lp_shares_in` of `sender`'s LP shares: `sender` receives its
    /// proportion of every reserve as outcome shares, and its proportion of the
    /// collected fees, which is returned as collateral owed to it.
    pub fn exit_liquidity(&mut self, sender: &String, lp_shares_in: u128) -> (r: Result<u128, AmmError>)
        requires
            old(self).wf(),
        ensures
            final(self).wf(),
            Pool::exit_liquidity_post(*old(self), *final(self), *sender, lp_shares_in, r),

    {
        let n = self.outcomes as usize;
        if lp_shares_in == 0 {
            return Err(AmmError::ValidationError);
        }
        let cur_lp = self.lp_shares_of(sender);
        if cur_lp < lp_shares_in {
            return Err(AmmError::InsufficientLPBalance);
        }
        proof {
            self.lemma_balance_bounds(sender@, -1);
        }
        let supply = self.pool_token_supply;
        let fee_out = scale_down(self.fee_pool, lp_shares_in, supply);
        let mut shares = self.shares_of(sender);
        let mut reserves: Vec<u128> = Vec::new();
        let mut i: usize = 0;
        while i < n
            invariant
                self.wf(),
                *self == *old(self),
                n == self.outcomes,
                i <= n,
                supply == self.pool_token_supply,
                0 < lp_shares_in <= supply,
                lp_shares_in <= self.lp_balance(sender@),
                shares@.len() == n,
                reserves@.len() == i,
                forall|j: int| i <= j < n ==> #[trigger] shares@[j] == self.share_balance(sender@, j),
                forall|j: int| 0 <= j < i ==> #[trigger] shares@[j] == self.share_balance(sender@, j)
                    + exit_share(self.reserves@[j] as int, lp_shares_in as int, supply as int),
                forall|j: int| 0 <= j < i ==> #[trigger] reserves@[j] == self.reserves@[j]
                    - exit_share(self.reserves@[j] as int, lp_shares_in as int, supply as int),
            decreases n - i,
        {
            let out = scale_down(self.reserves[i], lp_shares_in, supply);
            proof {
                self.lemma_balance_bounds(sender@, i as int);
            }
            reserves.push(self.reserves[i] - out);
            let cur = shares[i];
            shares.set(i, cur + out);
            i += 1;
        }
        let minted = copy_amounts(&self.minted);
        let ghost pre = *self;
        let ghost new_shares = shares@;
        self.commit(sender, reserves, minted, supply - lp_shares_in, self.fee_pool - fee_out, shares, cur_lp - lp_shares_in);
        proof {
            assert forall|o: int| 0 <= o < n implies #[trigger] self.share_balance(sender@, o)
                == new_shares[o] by {
                assert(self.balance(sender@, o) == new_shares[o]);
            }
        }
        Ok(fee_out)
    }
}

} // verus!
