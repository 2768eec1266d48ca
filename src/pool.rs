//! The liquidity pool of one market and the ledger of what each account holds
//! in it: outcome shares and pool (LP) shares.
//!
//! For every outcome the shares held by accounts plus the pool's reserve equal
//! the shares in existence (`minted`); the LP shares held by accounts equal the
//! pool token supply. Both are part of `wf` and every operation keeps them.
use vstd::prelude::*;
use crate::pool_math::{
    buy_amount, buy_fits, compute_buy_amount, compute_sell_amount, covers, fee_amount, gross_of_fee, net_of_fee,
    sell_amount, sell_fits, shifted_product, MathError, FEE_DENOMINATOR,
};

verus! {

/// What one account holds in a pool.
pub struct Holding {
    pub account_id: String,
    pub outcome_shares: Vec<u128>,
    pub lp_shares: u128,
}

/// Why an operation on a market was refused. A refused operation changes nothing.
#[derive(Debug, Clone, Copy, PartialEq, Eq, Structural)]
pub enum AmmError {
    Math(MathError),
    ValidationError,
    InvalidWeights,
    InvalidOutcome,
    UnknownMarket,
    Paused,
    MarketNotEnabled,
    MarketEnded,
    SlippageExceeded,
    InsufficientLPBalance,
    InsufficientShareBalance,
    ResolutionTimeNotReached,
    OracleConfigFetchFailed,
    InvalidOracleConfig,
    InvalidPaymentToken,
    InsufficientBond,
    DataRequestExists,
    NoDataRequest,
    AlreadyFinalized,
    NotFinalized,
    NothingToClaim,
}

/// A pool: one reserve per outcome, the pool token supply, collected fees,
/// and the holdings of every account that ever held anything in it.
pub struct Pool {
    pub market_id: u64,
    pub outcomes: u16,
    pub collateral_token_id: String,
    pub collateral_denomination: u128,
    pub swap_fee: u128,
    pub reserves: Vec<u128>,
    pub minted: Vec<u128>,
    pub pool_token_supply: u128,
    pub fee_pool: u128,
    pub holdings: Vec<Holding>,
}

/// Column `o` of a holding: its shares of outcome `o`, or its LP shares where `o < 0`.
pub open spec fn column(h: Holding, o: int) -> int {
    if o < 0 {
        h.lp_shares as int
    } else {
        h.outcome_shares@[o] as int
    }
}

/// The sum of column `o` over the holdings.
pub open spec fn held(hs: Seq<Holding>, o: int) -> int
    decreases hs.len(),
{
    if hs.len() == 0 {
        0
    } else {
        held(hs.drop_last(), o) + column(hs.last(), o)
    }
}

/// The account ids of the holdings, in order.
pub open spec fn ids(hs: Seq<Holding>) -> Seq<Seq<char>> {
    hs.map_values(|h: Holding| h.account_id@)
}

/// Where account `a` stands in `ids`, or -1.
pub open spec fn index_of(ids: Seq<Seq<char>>, a: Seq<char>) -> int {
    if exists|i: int| 0 <= i < ids.len() && ids[i] == a {
        choose|i: int| 0 <= i < ids.len() && ids[i] == a
    } else {
        -1
    }
}

/// No account id appears twice.
pub open spec fn unique(ids: Seq<Seq<char>>) -> bool {
    forall|i: int, j: int| 0 <= i < ids.len() && 0 <= j < ids.len() && i != j ==> ids[i] != ids[j]
}

impl Pool {
    /// Column `o` of the holding of account `a`; zero for an account with none.
    pub open spec fn balance(&self, a: Seq<char>, o: int) -> int {
        let k = index_of(ids(self.holdings@), a);
        if k >= 0 {
            column(self.holdings@[k], o)
        } else {
            0
        }
    }

    /// The shares of outcome `o` that account `a` holds.
    pub open spec fn share_balance(&self, a: Seq<char>, o: int) -> int {
        self.balance(a, o)
    }

    /// The LP shares that account `a` holds.
    pub open spec fn lp_balance(&self, a: Seq<char>) -> int {
        self.balance(a, -1)
    }

    /// Well-formedness, conservation of outcome shares and of LP shares included.
    pub open spec fn wf(&self) -> bool {
        &&& self.reserves@.len() == self.outcomes
        &&& self.minted@.len() == self.outcomes
        &&& forall|k: int|
            0 <= k < self.holdings@.len() ==> (#[trigger] self.holdings@[k]).outcome_shares@.len()
                == self.outcomes
        &&& unique(ids(self.holdings@))
        &&& forall|o: int|
            0 <= o < self.outcomes ==> held(self.holdings@, o) + self.reserves@[o]
                == #[trigger] self.minted@[o]
        &&& held(self.holdings@, -1) == self.pool_token_supply
    }
}

/// Replacing one holding changes a column sum by the difference.
pub proof fn lemma_held_update(hs: Seq<Holding>, k: int, h: Holding, o: int)
    requires
        0 <= k < hs.len(),
    ensures
        held(hs.update(k, h), o) == held(hs, o) - column(hs[k], o) + column(h, o),
    decreases hs.len(),
{
    let hs2 = hs.update(k, h);
    if k == hs.len() - 1 {
        assert(hs2.drop_last() =~= hs.drop_last());
    } else {
        assert(hs2.drop_last() =~= hs.drop_last().update(k, h));
        lemma_held_update(hs.drop_last(), k, h, o);
    }
}

/// Appending a holding adds its column to the sum.
pub proof fn lemma_held_push(hs: Seq<Holding>, h: Holding, o: int)
    ensures
        held(hs.push(h), o) == held(hs, o) + column(h, o),
{
    assert(hs.push(h).drop_last() =~= hs);
}

/// With unique ids, the account found at `k` is the one `index_of` names.
pub(crate) proof fn lemma_index_found(ids: Seq<Seq<char>>, a: Seq<char>, k: int)
    requires
        unique(ids),
        0 <= k < ids.len(),
        ids[k] == a,
    ensures
        index_of(ids, a) == k,
{
    assert(exists|i: int| 0 <= i < ids.len() && ids[i] == a);
}

/// `index_of` names a matching position, or -1 when there is none.
pub(crate) proof fn lemma_index_bounds(ids: Seq<Seq<char>>, a: Seq<char>)
    ensures
        -1 <= index_of(ids, a) < ids.len(),
        index_of(ids, a) >= 0 ==> ids[index_of(ids, a)] == a,
        index_of(ids, a) < 0 ==> forall|i: int| 0 <= i < ids.len() ==> ids[i] != a,
{
}

/// Appending a new account keeps ids unique and leaves every other account where it was.
pub(crate) proof fn lemma_index_push(ids: Seq<Seq<char>>, a: Seq<char>, b: Seq<char>)
    requires
        unique(ids),
        index_of(ids, a) < 0,
    ensures
        unique(ids.push(a)),
        index_of(ids.push(a), a) == ids.len(),
        b != a ==> index_of(ids.push(a), b) == index_of(ids, b),
{
    let ids2 = ids.push(a);
    lemma_index_bounds(ids, a);
    assert(ids2[ids.len() as int] == a);
    assert(unique(ids2)) by {
        assert forall|i: int, j: int|
            0 <= i < ids2.len() && 0 <= j < ids2.len() && i != j implies ids2[i] != ids2[j] by {
            if i < ids.len() && j < ids.len() {
                assert(ids2[i] == ids[i] && ids2[j] == ids[j]);
            }
        }
    }
    lemma_index_found(ids2, a, ids.len() as int);
    if b != a {
        lemma_index_bounds(ids, b);
        lemma_index_bounds(ids2, b);
        let k = index_of(ids, b);
        if k >= 0 {
            assert(ids2[k] == b);
            lemma_index_found(ids2, b, k);
        } else {
            let k2 = index_of(ids2, b);
            if k2 >= 0 {
                assert(k2 < ids.len());
                assert(ids[k2] == b);
            }
        }
    }
}

/// A copy of `v`, element for element.
pub(crate) fn copy_amounts(v: &Vec<u128>) -> (r: Vec<u128>)
    ensures
        r@ == v@,
{
    let mut r: Vec<u128> = Vec::new();
    let mut i: usize = 0;
    while i < v.len()
        invariant
            i <= v.len(),
            r@ == v@.take(i as int),
        decreases v.len() - i,
    {
        r.push(v[i]);
        i += 1;
        assert(r@ =~= v@.take(i as int));
    }
    assert(v@.take(v.len() as int) =~= v@);
    r
}

/// A vector of `n` zeros.
pub(crate) fn zeros(n: usize) -> (r: Vec<u128>)
    ensures
        r@.len() == n,
        forall|i: int| 0 <= i < n ==> r@[i] == 0,
{
    let mut r: Vec<u128> = Vec::new();
    let mut i: usize = 0;
    while i < n
        invariant
            i <= n,
            r@.len() == i,
            forall|j: int| 0 <= j < i ==> r@[j] == 0,
        decreases n - i,
    {
        r.push(0);
        i += 1;
    }
    r
}

impl Pool {
    /// An empty pool for `outcomes` outcomes.
    pub fn new(
        market_id: u64,
        outcomes: u16,
        collateral_token_id: String,
        collateral_denomination: u128,
        swap_fee: u128,
    ) -> (r: Pool)
        ensures
            r.wf(),
            r.market_id == market_id,
            r.outcomes == outcomes,
            r.collateral_token_id@ == collateral_token_id@,
            r.collateral_denomination == collateral_denomination,
            r.swap_fee == swap_fee,
            r.pool_token_supply == 0,
            r.fee_pool == 0,
            r.holdings@.len() == 0,
            forall|o: int| 0 <= o < outcomes ==> r.reserves@[o] == 0 && r.minted@[o] == 0,
    {
        let reserves = zeros(outcomes as usize);
        let minted = zeros(outcomes as usize);
        let r = Pool {
            market_id,
            outcomes,
            collateral_token_id,
            collateral_denomination,
            swap_fee,
            reserves,
            minted,
            pool_token_supply: 0,
            fee_pool: 0,
            holdings: Vec::new(),
        };
        assert(ids(r.holdings@) =~= Seq::<Seq<char>>::empty());
        r
    }

    /// Where `account` stands among the holdings.
    pub fn holding_index(&self, account: &String) -> (r: Option<usize>)
        requires
            self.wf(),
        ensures
            r.is_some() <==> index_of(ids(self.holdings@), account@) >= 0,
            r.is_some() ==> r.unwrap() == index_of(ids(self.holdings@), account@),
    {
        let mut k: usize = 0;
        while k < self.holdings.len()
            invariant
                k <= self.holdings@.len(),
                self.wf(),
                forall|i: int| 0 <= i < k ==> ids(self.holdings@)[i] != account@,
            decreases self.holdings.len() - k,
        {
            if self.holdings[k].account_id == *account {
                proof {
                    lemma_index_found(ids(self.holdings@), account@, k as int);
                }
                return Some(k);
            }
            k += 1;
        }
        proof {
            lemma_index_bounds(ids(self.holdings@), account@);
        }
        None
    }

    /// The shares of every outcome that `account` holds.
    pub fn shares_of(&self, account: &String) -> (r: Vec<u128>)
        requires
            self.wf(),
        ensures
            r@.len() == self.outcomes,
            forall|o: int| 0 <= o < self.outcomes ==> r@[o] == self.share_balance(account@, o),
    {
        match self.holding_index(account) {
            Some(k) => copy_amounts(&self.holdings[k].outcome_shares),
            None => zeros(self.outcomes as usize),
        }
    }

    /// The LP shares that `account` holds.
    pub fn lp_shares_of(&self, account: &String) -> (r: u128)
        requires
            self.wf(),
        ensures
            r == self.lp_balance(account@),
    {
        match self.holding_index(account) {
            Some(k) => self.holdings[k].lp_shares,
            None => 0,
        }
    }

    /// Replaces the pool's totals and the holding of `sender`; every other
    /// holding stays as it was.
    pub(crate) fn commit(
        &mut self,
        sender: &String,
        reserves: Vec<u128>,
        minted: Vec<u128>,
        supply: u128,
        fee_pool: u128,
        shares: Vec<u128>,
        lp: u128,
    )
        requires
            old(self).wf(),
            reserves@.len() == old(self).outcomes,
            minted@.len() == old(self).outcomes,
            shares@.len() == old(self).outcomes,
            forall|o: int|
                0 <= o < old(self).outcomes ==> held(old(self).holdings@, o) - old(self).balance(
                    sender@,
                    o,
                ) + shares@[o] + reserves@[o] == #[trigger] minted@[o],
            held(old(self).holdings@, -1) - old(self).balance(sender@, -1) + lp == supply,
        ensures
            final(self).wf(),
            final(self).reserves@ == reserves@,
            final(self).minted@ == minted@,
            final(self).pool_token_supply == supply,
            final(self).fee_pool == fee_pool,
            final(self).market_id == old(self).market_id,
            final(self).outcomes == old(self).outcomes,
            final(self).swap_fee == old(self).swap_fee,
            final(self).collateral_token_id == old(self).collateral_token_id,
            final(self).collateral_denomination == old(self).collateral_denomination,
            forall|o: int| 0 <= o < old(self).outcomes ==> final(self).balance(sender@, o) == shares@[o],
            final(self).balance(sender@, -1) == lp,
            forall|a: Seq<char>, o: int|
                a != sender@ ==> #[trigger] final(self).balance(a, o) == old(self).balance(a, o),
    {
        let ghost pre = *self;
        let ghost hs = self.holdings@;
        let ghost n = self.outcomes as int;
        let found = self.holding_index(sender);
        self.reserves = reserves;
        self.minted = minted;
        self.pool_token_supply = supply;
        self.fee_pool = fee_pool;
        match found {
            Some(k) => {
                let h = Holding {
                    account_id: self.holdings[k].account_id.clone(),
                    outcome_shares: shares,
                    lp_shares: lp,
                };
                self.holdings.set(k, h);
                proof {
                    assert(ids(self.holdings@) =~= ids(hs));
                    assert forall|o: int| -1 <= o < n implies held(self.holdings@, o) == held(hs, o)
                        - column(hs[k as int], o) + column(h, o) by {
                        lemma_held_update(hs, k as int, h, o);
                    }
                    assert(forall|o: int| 0 <= o < n ==> self.minted@[o] == held(self.holdings@, o) + self.reserves@[o]);
                }
            },
            None => {
                let h = Holding { account_id: sender.clone(), outcome_shares: shares, lp_shares: lp };
                self.holdings.push(h);
                proof {
                    assert(ids(self.holdings@) =~= ids(hs).push(sender@));
                    lemma_index_push(ids(hs), sender@, sender@);
                    assert forall|a: Seq<char>| a != sender@ implies index_of(ids(self.holdings@), a)
                        == index_of(ids(hs), a) by {
                        lemma_index_push(ids(hs), sender@, a);
                    }
                    assert forall|o: int| -1 <= o < n implies held(self.holdings@, o) == held(hs, o)
                        + column(h, o) by {
                        lemma_held_push(hs, h, o);
                    }
                    assert(forall|o: int| 0 <= o < n ==> self.minted@[o] == held(self.holdings@, o) + self.reserves@[o]);
                    assert forall|k: int| 0 <= k < self.holdings@.len() implies (
                    #[trigger] self.holdings@[k]).outcome_shares@.len() == n by {
                        if k < hs.len() {
                            assert(self.holdings@[k] == hs[k]);
                        }
                    }
                }
            },
        }
    }
}

/// A column sum covers each of its holdings.
pub proof fn lemma_held_ge(hs: Seq<Holding>, k: int, o: int)
    requires
        0 <= k < hs.len(),
    ensures
        held(hs, o) >= column(hs[k], o) >= 0,
    decreases hs.len(),
{
    lemma_held_nonneg(hs.drop_last(), o);
    if k < hs.len() - 1 {
        lemma_held_ge(hs.drop_last(), k, o);
    }
}

/// Column sums are never negative.
pub proof fn lemma_held_nonneg(hs: Seq<Holding>, o: int)
    ensures
        held(hs, o) >= 0,
    decreases hs.len(),
{
    if hs.len() > 0 {
        lemma_held_nonneg(hs.drop_last(), o);
    }
}

impl Pool {
    /// No account holds more of a column than all accounts together, and the
    /// pool's reserve of an outcome never exceeds what was minted of it.
    pub proof fn lemma_balance_bounds(&self, a: Seq<char>, o: int)
        requires
            self.wf(),
        ensures
            0 <= self.balance(a, o) <= held(self.holdings@, o),
            0 <= o < self.outcomes ==> self.reserves@[o] + self.balance(a, o) <= self.minted@[o],
            o == -1 ==> self.balance(a, o) <= self.pool_token_supply,
    {
        lemma_index_bounds(ids(self.holdings@), a);
        lemma_held_nonneg(self.holdings@, o);
        let k = index_of(ids(self.holdings@), a);
        if k >= 0 {
            lemma_held_ge(self.holdings@, k, o);
        }
        if 0 <= o < self.outcomes {
            assert(held(self.holdings@, o) + self.reserves@[o] == self.minted@[o]);
        }
    }

    /// What `buy` leaves behind: `post` is the pool after the call on `pre`, `r` its result.
    /// A buy of `outcome_target` for `collateral_in` goes through: the outcome
    /// exists, the price can be computed, the slippage bound holds, and the fee
    /// pool and the minted totals stay within `u128`.
    pub open spec fn buy_succeeds(pre: Pool, collateral_in: u128, outcome_target: u16, min_shares_out: u128) -> bool {
        let t = outcome_target as int;
        let fee = pre.swap_fee as int;
        let c = net_of_fee(collateral_in as int, fee);
        &&& t < pre.outcomes
        &&& pre.pool_token_supply > 0
        &&& pre.swap_fee <= FEE_DENOMINATOR
        &&& buy_fits(pre.reserves@, t, collateral_in as int, fee)
        &&& shifted_product(pre.reserves@, t, c, pre.outcomes as int) != 0
        &&& buy_amount(pre.reserves@, t, collateral_in as int, fee) >= min_shares_out
        &&& pre.fee_pool + fee_amount(collateral_in as int, fee) <= u128::MAX
        &&& forall|o: int| 0 <= o < pre.outcomes ==> #[trigger] pre.minted@[o] + c <= u128::MAX
    }

    pub open spec fn buy_post(
        pre: Pool,
        post: Pool,
        sender: String,
        collateral_in: u128,
        outcome_target: u16,
        min_shares_out: u128,
        r: Result<u128, AmmError>,
    ) -> bool {
        &&& (r is Ok <==> Pool::buy_succeeds(pre, collateral_in, outcome_target, min_shares_out))
        &&& (r.is_err() ==> post == pre)
        &&& (outcome_target >= pre.outcomes
            ==> r == Err::<u128, AmmError>(AmmError::InvalidOutcome))
        &&& (r == Err::<u128, AmmError>(AmmError::SlippageExceeded)
            <==> (outcome_target < pre.outcomes
                && pre.pool_token_supply > 0 && pre.swap_fee <= FEE_DENOMINATOR
                && buy_fits(pre.reserves@, outcome_target as int, collateral_in as int, pre.swap_fee as int)
                && shifted_product(pre.reserves@, outcome_target as int, net_of_fee(collateral_in as int, pre.swap_fee as int), pre.outcomes as int) != 0
                && buy_amount(pre.reserves@, outcome_target as int, collateral_in as int, pre.swap_fee as int) < min_shares_out))
        &&& (r == Err::<u128, AmmError>(AmmError::Math(MathError::DivisionByZero))
            <==> (outcome_target < pre.outcomes
                && pre.pool_token_supply > 0 && pre.swap_fee <= FEE_DENOMINATOR
                && collateral_in * pre.swap_fee <= u128::MAX
                && shifted_product(pre.reserves@, outcome_target as int, net_of_fee(collateral_in as int, pre.swap_fee as int), pre.outcomes as int) == 0))
        &&& (r == Err::<u128, AmmError>(AmmError::Math(MathError::ArithmeticOverflow))
            ==> ( !buy_fits(pre.reserves@, outcome_target as int, collateral_in as int, pre.swap_fee as int)
                || pre.fee_pool + fee_amount(collateral_in as int, pre.swap_fee as int) > u128::MAX
                || exists|o: int| 0 <= o < pre.outcomes
                    && pre.minted@[o] + net_of_fee(collateral_in as int, pre.swap_fee as int) > u128::MAX))
        &&& (r is Ok ==> ({
            let t = outcome_target as int;
            let fee = pre.swap_fee as int;
            let c = net_of_fee(collateral_in as int, fee);
            let v = r->Ok_0 as int;
            &&& t < pre.outcomes
            &&& buy_fits(pre.reserves@, t, collateral_in as int, fee)
            &&& shifted_product(pre.reserves@, t, c, pre.outcomes as int) != 0
            &&& v == buy_amount(pre.reserves@, t, collateral_in as int, fee)
            &&& v >= min_shares_out
            &&& forall|o: int| 0 <= o < pre.outcomes
                ==> #[trigger] post.reserves@[o] == pre.reserves@[o] + c - (if o == t { v } else { 0 })
            &&& forall|o: int| 0 <= o < pre.outcomes
                ==> #[trigger] post.minted@[o] == pre.minted@[o] + c
            &&& post.fee_pool == pre.fee_pool + fee_amount(collateral_in as int, fee)
            &&& post.pool_token_supply == pre.pool_token_supply
            &&& post.share_balance(sender@, t) == pre.share_balance(sender@, t) + v
            &&& forall|a: Seq<char>, o: int| -1 <= o < pre.outcomes && (a != sender@ || o != t)
                ==> #[trigger] post.balance(a, o) == pre.balance(a, o)
        }))
        &&& (post.outcomes == pre.outcomes)
        &&& (post.market_id == pre.market_id)
        &&& (post.collateral_token_id == pre.collateral_token_id)
        &&& (post.collateral_denomination == pre.collateral_denomination)
        &&& (post.swap_fee == pre.swap_fee)
    }

    /// Buys shares of `outcome_target` with `collateral_in`: the fee goes to the
    /// fee pool, the rest mints a full set of shares into the reserves, and the
    /// pool hands `buy_amount` shares of the target to `sender`.
    pub fn buy(&mut self, sender: &String, collateral_in: u128, outcome_target: u16, min_shares_out: u128) -> (r: Result<u128, AmmError>)
        requires
            old(self).wf(),
        ensures
            final(self).wf(),
            Pool::buy_post(*old(self), *final(self), *sender, collateral_in, outcome_target, min_shares_out, r),

    {
        let n = self.outcomes as usize;
        let t = outcome_target as usize;
        if t >= n {
            return Err(AmmError::InvalidOutcome);
        }
        if self.pool_token_supply == 0 {
            return Err(AmmError::Math(MathError::InsufficientLiquidity));
        }
        if self.swap_fee > FEE_DENOMINATOR {
            return Err(AmmError::ValidationError);
        }
        let shares_out = match compute_buy_amount(&self.reserves, t, collateral_in, self.swap_fee) {
            Ok(v) => v,
            Err(e) => {
                return Err(AmmError::Math(e));
            },
        };
        if shares_out < min_shares_out {
            return Err(AmmError::SlippageExceeded);
        }
        let fee_part = collateral_in * self.swap_fee / FEE_DENOMINATOR;
        let c = collateral_in - fee_part;
        let fee_pool = match self.fee_pool.checked_add(fee_part) {
            Some(v) => v,
            None => {
                return Err(AmmError::Math(MathError::ArithmeticOverflow));
            },
        };
        let mut reserves: Vec<u128> = Vec::new();
        let mut minted: Vec<u128> = Vec::new();
        let mut o: usize = 0;
        while o < n
            invariant
                self.wf(),
                *self == *old(self),
                n == self.outcomes,
                t < n,
                t == outcome_target,
                shares_out >= min_shares_out,
                shares_out == buy_amount(self.reserves@, t as int, collateral_in as int, self.swap_fee as int),
                buy_fits(self.reserves@, t as int, collateral_in as int, self.swap_fee as int),
                shifted_product(self.reserves@, t as int, c as int, n as int) != 0,
                fee_pool == self.fee_pool + fee_amount(collateral_in as int, self.swap_fee as int),
                o <= n,
                c == net_of_fee(collateral_in as int, self.swap_fee as int),
                shares_out <= self.reserves@[t as int] + c,
                reserves@.len() == o,
                minted@.len() == o,
                forall|i: int| 0 <= i < o ==> #[trigger] minted@[i] == self.minted@[i] + c,
                forall|i: int| 0 <= i < o ==> #[trigger] reserves@[i] == self.reserves@[i] + c - (if i == t { shares_out as int } else { 0 }),
            decreases n - o,
        {
            let m = match self.minted[o].checked_add(c) {
                Some(v) => v,
                None => {
                    return Err(AmmError::Math(MathError::ArithmeticOverflow));
                },
            };
            proof {
                self.lemma_balance_bounds(sender@, o as int);
            }
            let mut res = self.reserves[o] + c;
            if o == t {
                res = res - shares_out;
            }
            reserves.push(res);
            minted.push(m);
            o += 1;
        }
        assert forall|i: int| 0 <= i < n implies #[trigger] self.minted@[i] + c <= u128::MAX by {
            assert(minted@[i] == self.minted@[i] + c);
        }
        let mut shares = self.shares_of(sender);
        proof {
            self.lemma_balance_bounds(sender@, t as int);
            self.lemma_balance_bounds(sender@, -1);
            assert(held(self.holdings@, t as int) + reserves@[t as int] + shares_out == minted@[t as int]);
        }
        let cur = shares[t];
        shares.set(t, cur + shares_out);
        let lp = self.lp_shares_of(sender);
        let ghost pre = *self;
        let ghost new_shares = shares@;
        self.commit(sender, reserves, minted, self.pool_token_supply, fee_pool, shares, lp);
        proof {
            assert(self.balance(sender@, t as int) == new_shares[t as int]);
            assert forall|a: Seq<char>, o: int| -1 <= o < n && (a != sender@ || o != t) implies #[trigger] self.balance(a, o)
                == pre.balance(a, o) by {
                if a == sender@ && o >= 0 {
                    assert(self.balance(sender@, o) == new_shares[o]);
                }
            }
        }
        Ok(shares_out)
    }
}

/// A sale of `outcome t` for `collateral_out` can be priced on reserves `b` at fee `fee`.
pub open spec fn sell_ok(b: Seq<u128>, t: int, collateral_out: int, fee: int) -> bool {
    &&& fee < FEE_DENOMINATOR
    &&& covers(b, t, gross_of_fee(collateral_out, fee))
    &&& sell_fits(b, t, collateral_out, fee)
}

impl Pool {
    /// What `sell` leaves behind: `post` is the pool after the call on `pre`, `r` its result.
    /// A sale of `outcome_target` for `collateral_out` goes through: the outcome
    /// exists, the sale can be priced, the slippage bound holds, the seller
    /// holds the shares, and the fee pool stays within `u128`.
    pub open spec fn sell_succeeds(
        pre: Pool,
        sender: String,
        collateral_out: u128,
        outcome_target: u16,
        max_shares_in: u128,
    ) -> bool {
        let t = outcome_target as int;
        let fee = pre.swap_fee as int;
        let v = sell_amount(pre.reserves@, t, collateral_out as int, fee);
        &&& t < pre.outcomes
        &&& pre.pool_token_supply > 0
        &&& pre.swap_fee <= FEE_DENOMINATOR
        &&& sell_ok(pre.reserves@, t, collateral_out as int, fee)
        &&& v <= max_shares_in
        &&& pre.share_balance(sender@, t) >= v
        &&& pre.fee_pool + gross_of_fee(collateral_out as int, fee) - collateral_out <= u128::MAX
    }

    pub open spec fn sell_post(
        pre: Pool,
        post: Pool,
        sender: String,
        collateral_out: u128,
        outcome_target: u16,
        max_shares_in: u128,
        r: Result<u128, AmmError>,
    ) -> bool {
        &&& (r is Ok <==> Pool::sell_succeeds(pre, sender, collateral_out, outcome_target, max_shares_in))
        &&& (r.is_err() ==> post == pre)
        &&& (outcome_target >= pre.outcomes
            ==> r == Err::<u128, AmmError>(AmmError::InvalidOutcome))
        &&& (r == Err::<u128, AmmError>(AmmError::SlippageExceeded)
            <==> (outcome_target < pre.outcomes
                && pre.pool_token_supply > 0 && pre.swap_fee <= FEE_DENOMINATOR
                && sell_ok(pre.reserves@, outcome_target as int, collateral_out as int, pre.swap_fee as int)
                && sell_amount(pre.reserves@, outcome_target as int, collateral_out as int, pre.swap_fee as int) > max_shares_in))
        &&& (r == Err::<u128, AmmError>(AmmError::InsufficientShareBalance)
            <==> (outcome_target < pre.outcomes
                && pre.pool_token_supply > 0 && pre.swap_fee <= FEE_DENOMINATOR
                && sell_ok(pre.reserves@, outcome_target as int, collateral_out as int, pre.swap_fee as int)
                && sell_amount(pre.reserves@, outcome_target as int, collateral_out as int, pre.swap_fee as int) <= max_shares_in
                && pre.share_balance(sender@, outcome_target as int) < sell_amount(pre.reserves@, outcome_target as int, collateral_out as int, pre.swap_fee as int)))
        &&& (r matches Err(AmmError::Math(_))
            ==> outcome_target < pre.outcomes && (pre.pool_token_supply == 0 || !sell_ok(pre.reserves@, outcome_target as int, collateral_out as int, pre.swap_fee as int)
                || pre.fee_pool + gross_of_fee(collateral_out as int, pre.swap_fee as int) - collateral_out > u128::MAX))
        &&& (r is Ok ==> ({
            let t = outcome_target as int;
            let fee = pre.swap_fee as int;
            let c = gross_of_fee(collateral_out as int, fee);
            let v = r->Ok_0 as int;
            &&& t < pre.outcomes
            &&& sell_ok(pre.reserves@, t, collateral_out as int, fee)
            &&& v == sell_amount(pre.reserves@, t, collateral_out as int, fee)
            &&& v <= max_shares_in
            &&& forall|o: int| 0 <= o < pre.outcomes
                ==> #[trigger] post.reserves@[o] == pre.reserves@[o] - c + (if o == t { v } else { 0 })
            &&& forall|o: int| 0 <= o < pre.outcomes
                ==> #[trigger] post.minted@[o] == pre.minted@[o] - c
            &&& post.fee_pool == pre.fee_pool + c - collateral_out
            &&& post.pool_token_supply == pre.pool_token_supply
            &&& post.share_balance(sender@, t) == pre.share_balance(sender@, t) - v
            &&& forall|a: Seq<char>, o: int| -1 <= o < pre.outcomes && (a != sender@ || o != t)
                ==> #[trigger] post.balance(a, o) == pre.balance(a, o)
        }))
        &&& (post.outcomes == pre.outcomes)
        &&& (post.market_id == pre.market_id)
        &&& (post.collateral_token_id == pre.collateral_token_id)
        &&& (post.collateral_denomination == pre.collateral_denomination)
        &&& (post.swap_fee == pre.swap_fee)
    }

    /// Sells shares of `outcome_target` so that `collateral_out` reaches `sender`:
    /// the pool takes `sell_amount` shares from `sender`, burns a full set of
    /// `gross_of_fee(collateral_out)` shares out of the reserves, and keeps the
    /// difference over `collateral_out` as fees.
    pub fn sell(&mut self, sender: &String, collateral_out: u128, outcome_target: u16, max_shares_in: u128) -> (r: Result<u128, AmmError>)
        requires
            old(self).wf(),
        ensures
            final(self).wf(),
            Pool::sell_post(*old(self), *final(self), *sender, collateral_out, outcome_target, max_shares_in, r),

    {
        let n = self.outcomes as usize;
        let t = outcome_target as usize;
        if t >= n {
            return Err(AmmError::InvalidOutcome);
        }
        if self.pool_token_supply == 0 {
            return Err(AmmError::Math(MathError::InsufficientLiquidity));
        }
        if self.swap_fee > FEE_DENOMINATOR {
            return Err(AmmError::ValidationError);
        }
        let shares_in = match compute_sell_amount(&self.reserves, t, collateral_out, self.swap_fee) {
            Ok(v) => v,
            Err(e) => {
                return Err(AmmError::Math(e));
            },
        };
        if shares_in > max_shares_in {
            return Err(AmmError::SlippageExceeded);
        }
        let mut shares = self.shares_of(sender);
        let cur = shares[t];
        if cur < shares_in {
            return Err(AmmError::InsufficientShareBalance);
        }
        let keep = FEE_DENOMINATOR - self.swap_fee;
        let scaled = collateral_out * FEE_DENOMINATOR;
        let mut c = scaled / keep;
        if scaled % keep != 0 {
            c = c + 1;
        }
        let fee_pool = match self.fee_pool.checked_add(c - collateral_out) {
            Some(v) => v,
            None => {
                return Err(AmmError::Math(MathError::ArithmeticOverflow));
            },
        };
        let mut reserves: Vec<u128> = Vec::new();
        let mut minted: Vec<u128> = Vec::new();
        let mut o: usize = 0;
        while o < n
            invariant
                self.wf(),
                n == self.outcomes,
                t < n,
                o <= n,
                c == gross_of_fee(collateral_out as int, self.swap_fee as int),
                covers(self.reserves@, t as int, c as int),
                c <= shares_in,
                self.reserves@[t as int] + shares_in - c <= u128::MAX,
                shares_in <= self.share_balance(sender@, t as int),
                reserves@.len() == o,
                minted@.len() == o,
                forall|i: int| 0 <= i < o ==> #[trigger] minted@[i] == self.minted@[i] - c,
                forall|i: int| 0 <= i < o ==> #[trigger] reserves@[i] == self.reserves@[i] - c + (if i == t { shares_in as int } else { 0 }),
            decreases n - o,
        {
            proof {
                self.lemma_balance_bounds(sender@, o as int);
            }
            let m = self.minted[o] - c;
            let res = if o == t {
                self.reserves[o] + (shares_in - c)
            } else {
                self.reserves[o] - c
            };
            reserves.push(res);
            minted.push(m);
            o += 1;
        }
        shares.set(t, cur - shares_in);
        let lp = self.lp_shares_of(sender);
        let ghost pre = *self;
        let ghost new_shares = shares@;
        proof {
            self.lemma_balance_bounds(sender@, -1);
        }
        self.commit(sender, reserves, minted, self.pool_token_supply, fee_pool, shares, lp);
        proof {
            assert(self.balance(sender@, t as int) == new_shares[t as int]);
            assert forall|a: Seq<char>, o: int| -1 <= o < n && (a != sender@ || o != t) implies #[trigger] self.balance(a, o)
                == pre.balance(a, o) by {
                if a == sender@ && o >= 0 {
                    assert(self.balance(sender@, o) == new_shares[o]);
                }
            }
        }
        Ok(shares_in)
    }

    /// What `redeem_collateral` leaves behind: `post` is the pool after the call on `pre`, `r` its result.
    pub open spec fn redeem_collateral_post(
        pre: Pool,
        post: Pool,
        sender: String,
        amount: u128,
        r: Result<u128, AmmError>,
    ) -> bool {
        &&& (r.is_err() ==> post == pre)
        &&& (r == Err::<u128, AmmError>(AmmError::InsufficientShareBalance)
            <==> exists|o: int| 0 <= o < pre.outcomes
                && #[trigger] pre.share_balance(sender@, o) < amount)
        &&& (r.is_err() ==> r == Err::<u128, AmmError>(AmmError::InsufficientShareBalance))
        &&& (r is Ok ==> ({
            &&& r->Ok_0 == amount
            &&& post.reserves@ == pre.reserves@
            &&& forall|o: int| 0 <= o < pre.outcomes
                ==> #[trigger] post.minted@[o] == pre.minted@[o] - amount
            &&& forall|o: int| 0 <= o < pre.outcomes
                ==> #[trigger] post.share_balance(sender@, o) == pre.share_balance(sender@, o) - amount
            &&& post.lp_balance(sender@) == pre.lp_balance(sender@)
            &&& post.fee_pool == pre.fee_pool
            &&& post.pool_token_supply == pre.pool_token_supply
            &&& forall|a: Seq<char>, o: int| a != sender@
                ==> #[trigger] post.balance(a, o) == pre.balance(a, o)
        }))
        &&& (post.outcomes == pre.outcomes)
        &&& (post.market_id == pre.market_id)
        &&& (post.collateral_token_id == pre.collateral_token_id)
        &&& (post.collateral_denomination == pre.collateral_denomination)
        &&& (post.swap_fee == pre.swap_fee)
    }

    /// Burns `amount` shares of every outcome held by `sender`: a full set is
    /// worth one unit of collateral, and `amount` of it is owed to `sender`.
    pub fn redeem_collateral(&mut self, sender: &String, amount: u128) -> (r: Result<u128, AmmError>)
        requires
            old(self).wf(),
        ensures
            final(self).wf(),
            Pool::redeem_collateral_post(*old(self), *final(self), *sender, amount, r),

    {
        let n = self.outcomes as usize;
        let mut shares = self.shares_of(sender);
        let mut minted: Vec<u128> = Vec::new();
        let mut o: usize = 0;
        while o < n
            invariant
                self.wf(),
                n == self.outcomes,
                o <= n,
                shares@.len() == n,
                minted@.len() == o,
                forall|i: int| 0 <= i < n ==> #[trigger] shares@[i] == self.share_balance(sender@, i),
                forall|i: int| 0 <= i < o ==> self.share_balance(sender@, i) >= amount,
                forall|i: int| 0 <= i < o ==> #[trigger] minted@[i] == self.minted@[i] - amount,
            decreases n - o,
        {
            if shares[o] < amount {
                assert(self.share_balance(sender@, o as int) < amount);
                return Err(AmmError::InsufficientShareBalance);
            }
            proof {
                self.lemma_balance_bounds(sender@, o as int);
            }
            minted.push(self.minted[o] - amount);
            o += 1;
        }
        let mut i: usize = 0;
        while i < n
            invariant
                n == self.outcomes,
                i <= n,
                shares@.len() == n,
                forall|j: int| 0 <= j < i ==> #[trigger] shares@[j] == self.share_balance(sender@, j) - amount,
                forall|j: int| i <= j < n ==> #[trigger] shares@[j] == self.share_balance(sender@, j),
                forall|j: int| 0 <= j < n ==> self.share_balance(sender@, j) >= amount,
            decreases n - i,
        {
            let cur = shares[i];
            shares.set(i, cur - amount);
            i += 1;
        }
        let lp = self.lp_shares_of(sender);
        let reserves = copy_amounts(&self.reserves);
        proof {
            self.lemma_balance_bounds(sender@, -1);
        }
        let ghost pre = *self;
        let ghost new_shares = shares@;
        self.commit(sender, reserves, minted, self.pool_token_supply, self.fee_pool, shares, lp);
        proof {
            assert forall|o: int| 0 <= o < n implies #[trigger] self.share_balance(sender@, o)
                == pre.share_balance(sender@, o) - amount by {
                assert(self.balance(sender@, o) == new_shares[o]);
            }
        }
        Ok(amount)
    }
}

} // verus!
