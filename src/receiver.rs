//! Collateral transfers that carry an instruction, and the storage accounting
//! that every state-changing call settles with the caller.
use vstd::prelude::*;
use crate::market::AMMContract;
use crate::pool::{index_of, lemma_index_bounds, lemma_index_found, lemma_index_push, unique, AmmError, Pool};
use crate::pool_math::{buy_amount, MathError};
use crate::trading::{AddLiquidityArgs, BuyArgs};

verus! {

/// The instruction that a collateral transfer carries.
pub enum Payload {
    BuyArgs(BuyArgs),
    AddLiquidityArgs(AddLiquidityArgs),
}

/// A contract that receives fungible-token transfers with an instruction.
pub trait FungibleTokenReceiver: Sized {
    /// The receiver's own well-formedness, kept by every transfer.
    spec fn receiver_wf(&self) -> bool;

    /// The instruction `msg` can be carried out with `amount` at time `now`.
    spec fn transfer_accepted(&self, amount: u128, msg: Payload, now: u64) -> bool;

    /// `post` is what `pre` becomes when the transfer is handled: the
    /// instruction's effect where `accepted`, no change otherwise.
    spec fn transfer_done(
        pre: Self,
        post: Self,
        sender_id: String,
        amount: u128,
        msg: Payload,
        now: u64,
        accepted: bool,
    ) -> bool;

    /// Handles `amount` sent by `sender_id` with instruction `msg` at time
    /// `now`; returns the amount that was not used and goes back to the sender:
    /// nothing when the instruction is carried out, all of it otherwise.
    fn ft_on_transfer(&mut self, sender_id: String, amount: u128, msg: Payload, now: u64) -> (r: u128)
        requires
            old(self).receiver_wf(),
        ensures
            final(self).receiver_wf(),
            r == (if old(self).transfer_accepted(amount, msg, now) {
                0
            } else {
                amount
            }),
            Self::transfer_done(
                *old(self),
                *final(self),
                sender_id,
                amount,
                msg,
                now,
                old(self).transfer_accepted(amount, msg, now),
            ),
    ;
}

/// The market that an instruction addresses.
pub open spec fn payload_market(p: Payload) -> u64 {
    match p {
        Payload::BuyArgs(a) => a.market_id,
        Payload::AddLiquidityArgs(a) => a.market_id,
    }
}

impl AMMContract {
    /// Instruction `payload` can be carried out with `amount` at time `now`:
    /// the market is open and the buy or deposit goes through.
    pub open spec fn transfer_accepted(&self, amount: u128, payload: Payload, now: u64) -> bool {
        &&& amount > 0
        &&& match payload {
            Payload::BuyArgs(a) => self.gate_error(a.market_id, now).is_none() && Pool::buy_succeeds(
                self.markets@[a.market_id as int].pool,
                amount,
                a.outcome_target,
                a.min_shares_out,
            ),
            Payload::AddLiquidityArgs(a) => self.gate_error(a.market_id, now).is_none() && Pool::add_succeeds(
                self.markets@[a.market_id as int].pool,
                amount,
                a.weight_indication,
            ),
        }
    }

    /// `post` is `pre` after the transfer: unchanged where it was refused;
    /// otherwise only the market's pool changed, as the buy or deposit of the
    /// whole `amount` by `sender` changes it.
    pub open spec fn transfer_done(
        pre: AMMContract,
        post: AMMContract,
        sender: String,
        amount: u128,
        payload: Payload,
        now: u64,
        accepted: bool,
    ) -> bool {
        if !accepted {
            AMMContract::same_state(pre, post)
        } else {
            match payload {
                Payload::BuyArgs(a) => {
                    let p = pre.markets@[a.market_id as int].pool;
                    &&& AMMContract::only_pool_changed(pre, post, a.market_id as int)
                    &&& Pool::buy_post(
                        p,
                        post.markets@[a.market_id as int].pool,
                        sender,
                        amount,
                        a.outcome_target,
                        a.min_shares_out,
                        Ok(buy_amount(p.reserves@, a.outcome_target as int, amount as int, p.swap_fee as int) as u128),
                    )
                },
                Payload::AddLiquidityArgs(a) => {
                    let p = pre.markets@[a.market_id as int].pool;
                    &&& AMMContract::only_pool_changed(pre, post, a.market_id as int)
                    &&& Pool::add_liquidity_post(
                        p,
                        post.markets@[a.market_id as int].pool,
                        sender,
                        amount,
                        a.weight_indication,
                        Ok(p.lp_minted(amount as int) as u128),
                    )
                },
            }
        }
    }

    /// Carries out instruction `payload` with the `amount` of collateral that
    /// `sender_id` sent at time `now`. On success the whole amount is used.
    pub fn on_transfer(&mut self, sender_id: &String, amount: u128, payload: Payload, now: u64) -> (r: Result<u128, AmmError>)
        requires
            old(self).wf(),
        ensures
            final(self).wf(),
            amount == 0 ==> r == Err::<u128, AmmError>(AmmError::ValidationError),
            r is Ok <==> old(self).transfer_accepted(amount, payload, now),
            r is Ok ==> r->Ok_0 == 0,
            AMMContract::transfer_done(*old(self), *final(self), *sender_id, amount, payload, now, r is Ok),
            amount > 0 ==> match payload {
                Payload::BuyArgs(a) => old(self).gate_error(a.market_id, now) matches Some(e) ==> r
                    == Err::<u128, AmmError>(e),
                Payload::AddLiquidityArgs(a) => old(self).gate_error(a.market_id, now) matches Some(e) ==> r
                    == Err::<u128, AmmError>(e),
            },
    {
        if amount == 0 {
            return Err(AmmError::ValidationError);
        }
        let ghost pre = *self;
        let ghost market_id = payload_market(payload);
        let res = match payload {
            Payload::BuyArgs(a) => self.buy(sender_id, amount, a, now),
            Payload::AddLiquidityArgs(a) => self.add_liquidity(sender_id, amount, a, now),
        };
        proof {
            if res is Err && pre.gate_error(market_id, now).is_none() {
                assert(self.markets@[market_id as int] == pre.markets@[market_id as int]);
                assert(self.markets@ =~= pre.markets@);
            }
        }
        match res {
            Ok(_) => Ok(0),
            Err(e) => Err(e),
        }
    }
}

impl FungibleTokenReceiver for AMMContract {
    open spec fn receiver_wf(&self) -> bool {
        self.wf()
    }

    open spec fn transfer_accepted(&self, amount: u128, msg: Payload, now: u64) -> bool {
        AMMContract::transfer_accepted(self, amount, msg, now)
    }

    open spec fn transfer_done(
        pre: AMMContract,
        post: AMMContract,
        sender_id: String,
        amount: u128,
        msg: Payload,
        now: u64,
        accepted: bool,
    ) -> bool {
        AMMContract::transfer_done(pre, post, sender_id, amount, msg, now, accepted)
    }

    fn ft_on_transfer(&mut self, sender_id: String, amount: u128, msg: Payload, now: u64) -> (r: u128) {
        match self.on_transfer(&sender_id, amount, msg, now) {
            Ok(unused) => unused,
            Err(_) => amount,
        }
    }
}

/// `balance` after a call that moved storage use from `before` to `after`
/// bytes at `price_per_byte`: growth is charged, shrinkage credited.
pub open spec fn storage_settled(balance: int, before: int, after: int, price_per_byte: int) -> int {
    balance - (after - before) * price_per_byte
}

/// Settles the storage cost of a call with the caller's accounted balance.
pub fn storage_adjusted_balance(balance: i128, before: u64, after: u64, price_per_byte: u128) -> (r: Result<i128, AmmError>)
    ensures
        r is Ok <==> i128::MIN <= storage_settled(balance as int, before as int, after as int, price_per_byte as int)
            <= i128::MAX && (if after >= before { after - before } else { before - after }) * price_per_byte
            <= i128::MAX,
        r is Ok ==> r->Ok_0 == storage_settled(balance as int, before as int, after as int, price_per_byte as int),
        r is Err ==> r == Err::<i128, AmmError>(AmmError::Math(MathError::ArithmeticOverflow)),
{
    let diff: u128 = if after >= before {
        (after - before) as u128
    } else {
        (before - after) as u128
    };
    let cost = match diff.checked_mul(price_per_byte) {
        Some(v) => v,
        None => {
            return Err(AmmError::Math(MathError::ArithmeticOverflow));
        },
    };
    if cost > i128::MAX as u128 {
        return Err(AmmError::Math(MathError::ArithmeticOverflow));
    }
    let cost = cost as i128;
    proof {
        let a = after as int;
        let b = before as int;
        let p = price_per_byte as int;
        assert((a - b) * p == -((b - a) * p)) by (nonlinear_arith);
    }
    if after >= before {
        match balance.checked_sub(cost) {
            Some(v) => Ok(v),
            None => Err(AmmError::Math(MathError::ArithmeticOverflow)),
        }
    } else {
        match balance.checked_add(cost) {
            Some(v) => Ok(v),
            None => Err(AmmError::Math(MathError::ArithmeticOverflow)),
        }
    }
}

/// One account's accounted storage balance.
pub struct StorageEntry {
    pub account_id: String,
    pub balance: i128,
}

/// The accounted storage balances of accounts, each account at most once.
pub struct StorageLedger {
    pub entries: Vec<StorageEntry>,
}

/// The account ids of the entries, in order.
pub open spec fn entry_ids(es: Seq<StorageEntry>) -> Seq<Seq<char>> {
    es.map_values(|e: StorageEntry| e.account_id@)
}

impl StorageLedger {
    /// No account has two entries.
    pub open spec fn wf(&self) -> bool {
        unique(entry_ids(self.entries@))
    }

    /// The accounted balance of account `a`; zero for an account with no entry.
    pub open spec fn balance_of(&self, a: Seq<char>) -> int {
        let k = index_of(entry_ids(self.entries@), a);
        if k >= 0 {
            self.entries@[k].balance as int
        } else {
            0
        }
    }

    /// An empty ledger.
    pub fn new() -> (r: StorageLedger)
        ensures
            r.wf(),
            forall|a: Seq<char>| #[trigger] r.balance_of(a) == 0,
    {
        let r = StorageLedger { entries: Vec::new() };
        assert(entry_ids(r.entries@) =~= Seq::<Seq<char>>::empty());
        r
    }

    /// Where `account` stands among the entries.
    fn position(&self, account: &String) -> (r: Option<usize>)
        requires
            self.wf(),
        ensures
            r.is_some() <==> index_of(entry_ids(self.entries@), account@) >= 0,
            r.is_some() ==> r.unwrap() == index_of(entry_ids(self.entries@), account@),
    {
        let mut k: usize = 0;
        while k < self.entries.len()
            invariant
                k <= self.entries@.len(),
                self.wf(),
                forall|i: int| 0 <= i < k ==> entry_ids(self.entries@)[i] != account@,
            decreases self.entries.len() - k,
        {
            if self.entries[k].account_id == *account {
                proof {
                    lemma_index_found(entry_ids(self.entries@), account@, k as int);
                }
                return Some(k);
            }
            k += 1;
        }
        proof {
            lemma_index_bounds(entry_ids(self.entries@), account@);
        }
        None
    }

    /// The accounted balance of `account`.
    pub fn get(&self, account: &String) -> (r: i128)
        requires
            self.wf(),
        ensures
            r == self.balance_of(account@),
    {
        match self.position(account) {
            Some(k) => self.entries[k].balance,
            None => 0,
        }
    }

    /// Charges or credits `account` for a call that moved storage use from
    /// `before` to `after` bytes at `price_per_byte`; every other account keeps
    /// its balance.
    pub fn settle(&mut self, account: &String, before: u64, after: u64, price_per_byte: u128) -> (r: Result<(), AmmError>)
        requires
            old(self).wf(),
        ensures
            final(self).wf(),
            r is Ok <==> ({
                let settled = storage_settled(old(self).balance_of(account@), before as int, after as int, price_per_byte as int);
                &&& i128::MIN <= settled <= i128::MAX
                &&& (if after >= before { after - before } else { before - after }) * price_per_byte <= i128::MAX
            }),
            r is Err ==> *final(self) == *old(self) && r == Err::<(), AmmError>(AmmError::Math(MathError::ArithmeticOverflow)),
            r is Ok ==> final(self).balance_of(account@) == storage_settled(
                old(self).balance_of(account@),
                before as int,
                after as int,
                price_per_byte as int,
            ),
            forall|a: Seq<char>| a != account@ ==> #[trigger] final(self).balance_of(a) == old(self).balance_of(a),
    {
        let found = self.position(account);
        let current = match found {
            Some(k) => self.entries[k].balance,
            None => 0,
        };
        let updated = match storage_adjusted_balance(current, before, after, price_per_byte) {
            Ok(v) => v,
            Err(e) => {
                return Err(e);
            },
        };
        let ghost es = self.entries@;
        match found {
            Some(k) => {
                let entry = StorageEntry { account_id: self.entries[k].account_id.clone(), balance: updated };
                self.entries.set(k, entry);
                proof {
                    assert(entry_ids(self.entries@) =~= entry_ids(es));
                }
            },
            None => {
                self.entries.push(StorageEntry { account_id: account.clone(), balance: updated });
                proof {
                    assert(entry_ids(self.entries@) =~= entry_ids(es).push(account@));
                    lemma_index_push(entry_ids(es), account@, account@);
                    assert forall|a: Seq<char>| a != account@ implies index_of(entry_ids(self.entries@), a)
                        == index_of(entry_ids(es), a) by {
                        lemma_index_push(entry_ids(es), account@, a);
                    }
                }
            },
        }
        Ok(())
    }
}

} // verus!
