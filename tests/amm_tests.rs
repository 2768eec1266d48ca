use amm::market::{AMMContract, CollateralToken, CreateMarketArgs, Source};
use amm::oracle::{CreateDataRequestArgs, DataRequestDataType, OracleConfig};
use amm::pool::{AmmError, Pool};
use amm::settlement::scalar_payout_numerator;
use amm::pool_math::{compute_buy_amount, compute_sell_amount, compute_spot_price, MathError};
use amm::receiver::{storage_adjusted_balance, FungibleTokenReceiver, Payload, StorageLedger};
use amm::trading::{AddLiquidityArgs, BuyArgs, SellArgs};

const UNIT: u128 = 1_000_000;

fn contract() -> AMMContract {
    AMMContract::new(
        "oracle.near".to_string(),
        vec![CollateralToken { account_id: "usdc.near".to_string(), decimals: 6 }],
    )
}

fn market_args(end_time: u64, resolution_time: u64, swap_fee: u128) -> CreateMarketArgs {
    CreateMarketArgs {
        description: "Will it rain?".to_string(),
        extra_info: "Rain in the city".to_string(),
        outcomes: 2,
        outcome_tags: vec!["YES".to_string(), "NO".to_string()],
        categories: vec![],
        end_time,
        resolution_time,
        collateral_token_id: "usdc.near".to_string(),
        swap_fee,
        is_scalar: false,
        scalar_multiplier: None,
        challenge_period: 100,
        sources: vec![Source { end_point: "api".to_string(), source_path: "rain".to_string() }],
    }
}

/// A contract with one two-outcome market seeded by alice with 100 units at even weights.
fn seeded(swap_fee: u128) -> AMMContract {
    let mut c = contract();
    let id = c.create_market(&market_args(1000, 2000, swap_fee), 10).unwrap();
    assert_eq!(id, 0);
    let lp = c
        .add_liquidity(
            &"alice".to_string(),
            100 * UNIT,
            AddLiquidityArgs { market_id: 0, weight_indication: Some(vec![50, 50]) },
            20,
        )
        .unwrap();
    assert_eq!(lp, 100 * UNIT);
    c
}

fn buy(c: &mut AMMContract, who: &str, amount: u128, outcome: u16) -> u128 {
    c.buy(&who.to_string(), amount, BuyArgs { market_id: 0, outcome_target: outcome, min_shares_out: 0 }, 30)
        .unwrap()
}

/// Records a data request for market 0, as the oracle legs do once its resolution time has come.
fn request_data(c: &mut AMMContract) {
    let config = Some(OracleConfig { payment_token: "bond.near".to_string(), validity_bond: 100 });
    c.proceed_data_request_creation("alice".to_string(), "bond.near".to_string(), 100, 0, config).unwrap();
}

/// Requests data for market 0 and resolves it with `payout`.
fn resolve(c: &mut AMMContract, payout: Option<Vec<u128>>) -> Result<(), AmmError> {
    request_data(c);
    c.resolute_market(0, payout)
}

fn pool(c: &AMMContract) -> &Pool {
    &c.markets[0].pool
}

fn conserved(p: &Pool) -> bool {
    (0..p.outcomes as usize).all(|o| {
        let held: u128 = p.holdings.iter().map(|h| h.outcome_shares[o]).sum();
        held + p.reserves[o] == p.minted[o]
    }) && p.holdings.iter().map(|h| h.lp_shares).sum::<u128>() == p.pool_token_supply
}

#[test]
fn buy_amount_exact_values() {
    assert_eq!(compute_buy_amount(&vec![100, 100], 0, 10, 0), Ok(19));
    assert_eq!(compute_buy_amount(&vec![10000, 10000], 0, 1000, 200), Ok(1872));
    assert_eq!(compute_buy_amount(&vec![100, 0], 0, 0, 0), Err(MathError::DivisionByZero));
    assert_eq!(compute_buy_amount(&vec![2, u128::MAX], 0, 1, 0), Err(MathError::ArithmeticOverflow));
    assert_eq!(compute_buy_amount(&vec![u128::MAX, 2], 0, 1, 0), Ok(u128::MAX / 3 + 1));
}

#[test]
fn sell_amount_exact_values() {
    assert_eq!(compute_sell_amount(&vec![100, 100], 0, 10, 0), Ok(22));
    assert_eq!(compute_sell_amount(&vec![100, 100], 0, 100, 0), Err(MathError::InsufficientLiquidity));
    assert_eq!(compute_sell_amount(&vec![100, 100], 0, 10, 10000), Err(MathError::DivisionByZero));
}

#[test]
fn spot_price_exact_values() {
    assert_eq!(compute_spot_price(&vec![100, 300], 0, 1000), Ok(750));
    assert_eq!(compute_spot_price(&vec![100, 300], 1, 1000), Ok(250));
    assert_eq!(compute_spot_price(&vec![0, 0], 1, 1000), Err(MathError::DivisionByZero));
}

#[test]
fn prices_stay_in_range_and_sum_to_one() {
    let mut c = seeded(0);
    assert_eq!(c.get_spot_price(0, 0), Ok(UNIT / 2));
    for _ in 0..4 {
        buy(&mut c, "bob", UNIT, 0);
        buy(&mut c, "bob", UNIT, 1);
    }
    let p0 = c.get_spot_price(0, 0).unwrap();
    let p1 = c.get_spot_price(0, 1).unwrap();
    assert!(p0 <= UNIT && p1 <= UNIT);
    assert!(p0 + p1 <= UNIT && p0 + p1 + 1 >= UNIT);
}

#[test]
fn price_rises_as_own_reserve_falls() {
    for fee in [0u128, 200] {
        let mut c = seeded(fee);
        let mut last = c.get_spot_price(0, 0).unwrap();
        for _ in 0..3 {
            let before = c.get_pool_balances(0).unwrap()[0];
            buy(&mut c, "bob", 5 * UNIT, 0);
            assert!(c.get_pool_balances(0).unwrap()[0] < before);
            let now = c.get_spot_price(0, 0).unwrap();
            assert!(now > last);
            last = now;
        }
    }
}

#[test]
fn liquidity_round_trip_returns_complete_sets() {
    let mut c = contract();
    c.create_market(&market_args(1000, 2000, 0), 10).unwrap();
    let lp = c
        .add_liquidity(
            &"alice".to_string(),
            1000,
            AddLiquidityArgs { market_id: 0, weight_indication: Some(vec![1, 3]) },
            20,
        )
        .unwrap();
    assert_eq!(c.get_pool_balances(0).unwrap(), vec![333, 1000]);
    assert_eq!(pool(&c).shares_of(&"alice".to_string()), vec![667, 0]);
    assert_eq!(c.exit_liquidity(&"alice".to_string(), 0, lp, 30), Ok(0));
    assert_eq!(c.get_pool_balances(0).unwrap(), vec![0, 0]);
    assert_eq!(pool(&c).shares_of(&"alice".to_string()), vec![1000, 1000]);
    assert_eq!(pool(&c).lp_shares_of(&"alice".to_string()), 0);
}

#[test]
fn shares_are_conserved_through_trading() {
    let mut c = seeded(100);
    assert!(conserved(pool(&c)));
    buy(&mut c, "bob", 3 * UNIT, 0);
    buy(&mut c, "carol", 2 * UNIT, 1);
    assert!(conserved(pool(&c)));
    c.sell(&"bob".to_string(), SellArgs { market_id: 0, collateral_out: UNIT, outcome_target: 0, max_shares_in: u128::MAX }, 40)
        .unwrap();
    c.redeem_collateral(&"carol".to_string(), 0, 0, 40).unwrap();
    c.add_liquidity(&"dave".to_string(), 10 * UNIT, AddLiquidityArgs { market_id: 0, weight_indication: None }, 40)
        .unwrap();
    c.exit_liquidity(&"alice".to_string(), 0, 50 * UNIT, 40).unwrap();
    assert!(conserved(pool(&c)));
    resolve(&mut c, Some(vec![1, 0])).unwrap();
    c.claim_earnings(&"bob".to_string(), 0).unwrap();
    c.claim_earnings(&"alice".to_string(), 0).unwrap();
    assert!(conserved(pool(&c)));
}

#[test]
fn buy_then_sell_without_fee_gives_no_profit() {
    let mut c = seeded(0);
    let out = buy(&mut c, "bob", 7 * UNIT, 0);
    let needed = c.calc_sell_collateral_out(0, 7 * UNIT, 0).unwrap();
    assert!(needed >= out);
    assert!(needed <= out + 2);
}

#[test]
fn buy_then_sell_with_fee_returns_less() {
    let mut c = seeded(200);
    let out = buy(&mut c, "bob", 10 * UNIT, 0);
    let r = c.sell(
        &"bob".to_string(),
        SellArgs { market_id: 0, collateral_out: 10 * UNIT, outcome_target: 0, max_shares_in: u128::MAX },
        40,
    );
    assert_eq!(r, Err(AmmError::InsufficientShareBalance));
    assert!(c.calc_sell_collateral_out(0, 10 * UNIT, 0).unwrap() > out);
}

#[test]
fn payout_to_winning_outcome_only() {
    let mut c = seeded(0);
    let zero_shares = buy(&mut c, "bob", 4 * UNIT, 0);
    let one_shares = buy(&mut c, "carol", 4 * UNIT, 1);
    assert!(zero_shares > 0 && one_shares > 0);
    resolve(&mut c, Some(vec![0, 1])).unwrap();
    assert_eq!(c.claim_earnings(&"bob".to_string(), 0), Ok(0));
    let carol = pool(&c).shares_of(&"carol".to_string())[1];
    let p = pool(&c);
    let total_shares: u128 = p.holdings.iter().map(|h| h.outcome_shares[1]).sum::<u128>() + p.reserves[1];
    let expected = carol * p.minted[1] / total_shares;
    assert_eq!(c.claim_earnings(&"carol".to_string(), 0), Ok(expected));
    assert_eq!(expected, one_shares);
}

#[test]
fn second_claim_finds_nothing() {
    let mut c = seeded(0);
    buy(&mut c, "bob", 2 * UNIT, 1);
    resolve(&mut c, Some(vec![0, 1])).unwrap();
    assert!(c.claim_earnings(&"bob".to_string(), 0).unwrap() > 0);
    let reserves = c.get_pool_balances(0).unwrap();
    let minted = pool(&c).minted.clone();
    assert_eq!(c.claim_earnings(&"bob".to_string(), 0), Err(AmmError::NothingToClaim));
    assert_eq!(c.get_pool_balances(0).unwrap(), reserves);
    assert_eq!(pool(&c).minted, minted);
    assert_eq!(pool(&c).shares_of(&"bob".to_string()), vec![0, 0]);
}

#[test]
fn lp_claim_includes_fees_and_reserves() {
    let mut c = seeded(200);
    buy(&mut c, "bob", 10 * UNIT, 0);
    let fees = pool(&c).fee_pool;
    assert_eq!(fees, 10 * UNIT * 200 / 10000);
    resolve(&mut c, None).unwrap();
    let alice = c.claim_earnings(&"alice".to_string(), 0).unwrap();
    assert!(alice > fees);
    assert_eq!(pool(&c).fee_pool, 0);
    assert_eq!(pool(&c).pool_token_supply, 0);
}

#[test]
fn create_market_rejects_resolution_before_end() {
    let mut c = contract();
    let r = c.create_market(&market_args(1000, 999, 0), 10);
    assert_eq!(r, Err(AmmError::ValidationError));
    assert_eq!(c.market_count(), 0);
}

#[test]
fn create_market_validation() {
    let mut c = contract();
    let mut bad_token = market_args(1000, 2000, 0);
    bad_token.collateral_token_id = "other.near".to_string();
    assert_eq!(c.create_market(&bad_token, 10), Err(AmmError::ValidationError));
    let mut bad_tags = market_args(1000, 2000, 0);
    bad_tags.outcome_tags.pop();
    assert_eq!(c.create_market(&bad_tags, 10), Err(AmmError::ValidationError));
    assert_eq!(c.create_market(&market_args(1000, 2000, 0), 1000), Err(AmmError::ValidationError));
    assert_eq!(c.create_market(&market_args(1000, 1000, 0), 10), Ok(0));
    assert_eq!(c.create_market(&market_args(1000, 2000, 0), 10), Ok(1));
    assert_eq!(c.market_count(), 2);
    assert!(c.markets[1].enabled);
    assert_eq!(c.markets[1].pool.collateral_denomination, UNIT);
    let mut single = market_args(1000, 2000, 0);
    single.outcomes = 1;
    single.outcome_tags = vec!["ONLY".to_string()];
    assert_eq!(c.create_market(&single, 10), Ok(2));
    let mut scalar = market_args(1000, 2000, 0);
    scalar.is_scalar = true;
    assert_eq!(c.create_market(&scalar, 10), Ok(3));
    let config = Some(OracleConfig { payment_token: "bond.near".to_string(), validity_bond: 1 });
    let r = c.proceed_data_request_creation("alice".to_string(), "bond.near".to_string(), 1, 3, config);
    assert_eq!(r.err(), Some(AmmError::ValidationError));
    assert_eq!(c.create_market(&market_args(1000, 2000, 10001), 10), Ok(4));
    let r = c.add_liquidity(&"alice".to_string(), 100, AddLiquidityArgs { market_id: 4, weight_indication: None }, 20);
    assert_eq!(r, Ok(100));
    let r = c.buy(&"bob".to_string(), 10, BuyArgs { market_id: 4, outcome_target: 0, min_shares_out: 0 }, 20);
    assert_eq!(r, Err(AmmError::ValidationError));
    c.paused = true;
    assert_eq!(c.create_market(&market_args(1000, 2000, 0), 10), Err(AmmError::Paused));
}

#[test]
fn trading_gate_errors() {
    let mut c = seeded(0);
    let bob = "bob".to_string();
    let args = |id| BuyArgs { market_id: id, outcome_target: 0, min_shares_out: 0 };
    assert_eq!(c.buy(&bob, UNIT, args(5), 30), Err(AmmError::UnknownMarket));
    assert_eq!(c.buy(&bob, UNIT, args(0), 1000), Err(AmmError::MarketEnded));
    assert_eq!(
        c.buy(&bob, UNIT, BuyArgs { market_id: 0, outcome_target: 2, min_shares_out: 0 }, 30),
        Err(AmmError::InvalidOutcome)
    );
    assert_eq!(
        c.buy(&bob, UNIT, BuyArgs { market_id: 0, outcome_target: 0, min_shares_out: 100 * UNIT }, 30),
        Err(AmmError::SlippageExceeded)
    );
    c.markets[0].enabled = false;
    assert_eq!(c.buy(&bob, UNIT, args(0), 30), Err(AmmError::MarketNotEnabled));
    c.markets[0].enabled = true;
    c.paused = true;
    assert_eq!(c.buy(&bob, UNIT, args(0), 30), Err(AmmError::Paused));
    c.paused = false;
    resolve(&mut c, None).unwrap();
    assert_eq!(c.buy(&bob, UNIT, args(0), 30), Err(AmmError::AlreadyFinalized));
}

#[test]
fn liquidity_errors() {
    let mut c = contract();
    c.create_market(&market_args(1000, 2000, 0), 10).unwrap();
    let alice = "alice".to_string();
    let add = |w: Option<Vec<u128>>| AddLiquidityArgs { market_id: 0, weight_indication: w };
    assert_eq!(c.add_liquidity(&alice, 10, add(Some(vec![1, 2, 3])), 20), Err(AmmError::InvalidWeights));
    assert_eq!(c.add_liquidity(&alice, 10, add(Some(vec![1, 0])), 20), Err(AmmError::InvalidWeights));
    assert_eq!(c.add_liquidity(&alice, 0, add(None), 20), Err(AmmError::ValidationError));
    assert_eq!(c.add_liquidity(&alice, 10, add(None), 20), Ok(10));
    assert_eq!(c.add_liquidity(&alice, 10, add(Some(vec![1, 1])), 20), Err(AmmError::InvalidWeights));
    assert_eq!(c.exit_liquidity(&alice, 0, 11, 20), Err(AmmError::InsufficientLPBalance));
    assert_eq!(c.exit_liquidity(&"bob".to_string(), 0, 1, 20), Err(AmmError::InsufficientLPBalance));
    assert_eq!(c.exit_liquidity(&alice, 0, 0, 20), Err(AmmError::ValidationError));
    assert_eq!(c.redeem_collateral(&alice, 0, 1, 20), Err(AmmError::InsufficientShareBalance));
}

#[test]
fn later_deposits_follow_reserves() {
    let mut c = seeded(0);
    buy(&mut c, "bob", 10 * UNIT, 0);
    let before = c.get_pool_balances(0).unwrap();
    let supply = pool(&c).pool_token_supply;
    let max = *before.iter().max().unwrap();
    let lp = c
        .add_liquidity(&"dave".to_string(), 10 * UNIT, AddLiquidityArgs { market_id: 0, weight_indication: None }, 40)
        .unwrap();
    assert_eq!(lp, 10 * UNIT * supply / max);
    let after = c.get_pool_balances(0).unwrap();
    for o in 0..2 {
        let kept = 10 * UNIT * before[o] / max;
        assert_eq!(after[o], before[o] + kept);
        assert_eq!(pool(&c).shares_of(&"dave".to_string())[o], 10 * UNIT - kept);
    }
}

#[test]
fn resolution_errors() {
    let mut c = seeded(0);
    assert_eq!(c.claim_earnings(&"alice".to_string(), 0), Err(AmmError::NotFinalized));
    assert_eq!(c.resolute_market(3, None), Err(AmmError::UnknownMarket));
    assert_eq!(c.resolute_market(0, Some(vec![1, 1])), Err(AmmError::NoDataRequest));
    request_data(&mut c);
    assert_eq!(c.resolute_market(0, Some(vec![1])), Err(AmmError::ValidationError));
    assert_eq!(c.resolute_market(0, Some(vec![0, 0])), Err(AmmError::ValidationError));
    assert_eq!(c.resolute_market(0, Some(vec![1, 1])), Ok(()));
    assert_eq!(c.resolute_market(0, Some(vec![1, 1])), Err(AmmError::AlreadyFinalized));
    assert_eq!(c.claim_earnings(&"nobody".to_string(), 0), Err(AmmError::NothingToClaim));
}

#[test]
fn void_market_pays_every_outcome_equally() {
    let mut c = seeded(0);
    resolve(&mut c, None).unwrap();
    assert_eq!(c.markets[0].payout_numerator, Some(vec![1, 1]));
    let alice = c.claim_earnings(&"alice".to_string(), 0).unwrap();
    assert_eq!(alice, 100 * UNIT);
}

#[test]
fn data_request_flow() {
    let mut c = seeded(0);
    let alice = "alice".to_string();
    let token = "bond.near".to_string();
    assert_eq!(
        c.ft_create_data_request_callback(&alice, &token, 150, CreateDataRequestArgs { market_id: 0 }, 1999).err(),
        Some(AmmError::ResolutionTimeNotReached)
    );
    let pending = c
        .ft_create_data_request_callback(&alice, &token, 150, CreateDataRequestArgs { market_id: 0 }, 2000)
        .unwrap();
    assert_eq!(pending.bond_in, 150);
    let cfg = |t: &str, b: u128| Some(OracleConfig { payment_token: t.to_string(), validity_bond: b });
    let go = |c: &mut AMMContract, config| {
        c.proceed_data_request_creation(pending.sender.clone(), pending.payment_token.clone(), pending.bond_in, 0, config)
    };
    assert_eq!(go(&mut c, None).err(), Some(AmmError::OracleConfigFetchFailed));
    assert_eq!(go(&mut c, cfg("other.near", 100)).err(), Some(AmmError::InvalidPaymentToken));
    assert_eq!(go(&mut c, cfg("bond.near", 200)).err(), Some(AmmError::InsufficientBond));
    let created = go(&mut c, cfg("bond.near", 100)).unwrap();
    assert_eq!(created.refund, 50);
    assert_eq!(created.refund_to, "alice");
    assert_eq!(created.transfer.amount, 100);
    assert_eq!(created.transfer.receiver, "oracle.near");
    assert_eq!(created.transfer.payment_token, "bond.near");
    let req = &created.transfer.request;
    assert_eq!(req.description.as_deref(), Some("Will it rain? - Rain in the city"));
    assert_eq!(req.outcomes, Some(vec!["YES".to_string(), "NO".to_string()]));
    assert_eq!(req.tags, Some(vec!["0".to_string()]));
    assert!(matches!(req.data_type, DataRequestDataType::String));
    assert_eq!(req.creator, "alice");
    assert_eq!(c.markets[0].validity_bond, Some(100));
    assert_eq!(c.markets[0].dr_creator.as_deref(), Some("alice"));
    assert_eq!(go(&mut c, cfg("bond.near", 100)).err(), Some(AmmError::DataRequestExists));
}

#[test]
fn transfer_dispatch_and_refund() {
    let mut c = seeded(0);
    let buy_msg = Payload::BuyArgs(BuyArgs { market_id: 0, outcome_target: 1, min_shares_out: 0 });
    assert_eq!(c.ft_on_transfer("bob".to_string(), UNIT, buy_msg, 30), 0);
    assert!(pool(&c).shares_of(&"bob".to_string())[1] > 0);
    let late = Payload::BuyArgs(BuyArgs { market_id: 0, outcome_target: 1, min_shares_out: 0 });
    assert_eq!(c.ft_on_transfer("bob".to_string(), UNIT, late, 5000), UNIT);
    let zero = Payload::AddLiquidityArgs(AddLiquidityArgs { market_id: 0, weight_indication: None });
    assert_eq!(c.on_transfer(&"bob".to_string(), 0, zero, 30), Err(AmmError::ValidationError));
}

#[test]
fn storage_accounting() {
    assert_eq!(storage_adjusted_balance(1000, 10, 15, 7), Ok(965));
    assert_eq!(storage_adjusted_balance(1000, 10, 5, 7), Ok(1035));
    assert_eq!(storage_adjusted_balance(0, 10, 10, 7), Ok(0));
    assert_eq!(
        storage_adjusted_balance(i128::MIN, 0, 1, 1),
        Err(AmmError::Math(MathError::ArithmeticOverflow))
    );
}

#[test]
fn scalar_answers_split_between_long_and_short() {
    assert_eq!(scalar_payout_numerator(25, 0, 100), Ok(vec![25, 75]));
    assert_eq!(scalar_payout_numerator(500, 0, 100), Ok(vec![100, 0]));
    assert_eq!(scalar_payout_numerator(5, 10, 100), Ok(vec![0, 90]));
    assert_eq!(scalar_payout_numerator(5, 10, 10), Err(AmmError::ValidationError));
    let mut c = seeded(0);
    resolve(&mut c, Some(scalar_payout_numerator(25, 0, 100).unwrap())).unwrap();
    let alice = c.claim_earnings(&"alice".to_string(), 0).unwrap();
    assert_eq!(alice, 100 * UNIT * 25 / 100 + 100 * UNIT * 75 / 100);
}

#[test]
fn finalized_market_takes_no_data_request() {
    let mut c = seeded(0);
    resolve(&mut c, None).unwrap();
    let config = Some(OracleConfig { payment_token: "bond.near".to_string(), validity_bond: 100 });
    let r = c.proceed_data_request_creation("bob".to_string(), "bond.near".to_string(), 100, 0, config);
    assert_eq!(r.err(), Some(AmmError::AlreadyFinalized));
}

#[test]
fn storage_ledger_settles_one_account() {
    let mut ledger = StorageLedger::new();
    let alice = "alice".to_string();
    let bob = "bob".to_string();
    assert_eq!(ledger.settle(&alice, 10, 15, 7), Ok(()));
    assert_eq!(ledger.get(&alice), -35);
    assert_eq!(ledger.settle(&alice, 15, 5, 7), Ok(()));
    assert_eq!(ledger.get(&alice), 35);
    assert_eq!(ledger.get(&bob), 0);
    assert_eq!(ledger.settle(&bob, 0, 1, u128::MAX), Err(AmmError::Math(MathError::ArithmeticOverflow)));
    assert_eq!(ledger.get(&bob), 0);
    assert_eq!(ledger.get(&alice), 35);
}

#[test]
fn refused_transfer_returns_whole_amount_and_changes_nothing() {
    let mut c = seeded(0);
    let before = c.get_pool_balances(0).unwrap();
    let msg = Payload::BuyArgs(BuyArgs { market_id: 0, outcome_target: 0, min_shares_out: 1000 * UNIT });
    assert_eq!(c.ft_on_transfer("bob".to_string(), UNIT, msg, 30), UNIT);
    assert_eq!(c.get_pool_balances(0).unwrap(), before);
    let msg = Payload::BuyArgs(BuyArgs { market_id: 0, outcome_target: 0, min_shares_out: 0 });
    assert_eq!(c.ft_on_transfer("bob".to_string(), 0, msg, 30), 0);
    assert_eq!(c.get_pool_balances(0).unwrap(), before);
}

const YOCTO: u128 = 1_000_000_000_000_000_000_000_000;

fn near_contract() -> AMMContract {
    let mut c = AMMContract::new(
        "oracle.near".to_string(),
        vec![CollateralToken { account_id: "wnear.near".to_string(), decimals: 24 }],
    );
    let mut args = market_args(1000, 2000, 0);
    args.collateral_token_id = "wnear.near".to_string();
    assert_eq!(c.create_market(&args, 10), Ok(0));
    let seed = Payload::AddLiquidityArgs(AddLiquidityArgs { market_id: 0, weight_indication: Some(vec![50, 50]) });
    assert_eq!(c.ft_on_transfer("alice".to_string(), 100 * YOCTO, seed, 20), 0);
    c
}

#[test]
fn prices_sum_to_one_at_24_decimals() {
    let mut c = near_contract();
    assert_eq!(c.get_spot_price(0, 0), Ok(YOCTO / 2));
    for o in [0u16, 1, 0, 1, 0, 1, 0, 1] {
        let msg = Payload::BuyArgs(BuyArgs { market_id: 0, outcome_target: o, min_shares_out: 0 });
        assert_eq!(c.ft_on_transfer("bob".to_string(), YOCTO, msg, 30), 0);
    }
    let p0 = c.get_spot_price(0, 0).unwrap();
    let p1 = c.get_spot_price(0, 1).unwrap();
    assert!(p0 <= YOCTO && p1 <= YOCTO);
    assert!(p0 + p1 <= YOCTO && p0 + p1 + 2 >= YOCTO);
}

#[test]
fn payout_scenario_at_24_decimals() {
    let mut c = near_contract();
    for o in [0u16, 1, 0, 1] {
        let msg = Payload::BuyArgs(BuyArgs { market_id: 0, outcome_target: o, min_shares_out: 0 });
        assert_eq!(c.ft_on_transfer("bob".to_string(), YOCTO, msg, 30), 0);
    }
    assert_eq!(
        pool(&c).shares_of(&"bob".to_string()),
        vec![3980393117936361203449461, 4019603038518995487419932]
    );
    resolve(&mut c, Some(vec![0, YOCTO])).unwrap();
    let paid = c.claim_earnings(&"bob".to_string(), 0).unwrap();
    assert_eq!(paid, 4019603038518995487419932);
    assert_eq!(500 * YOCTO - 4 * YOCTO + paid, 500019603038518995487419932);
}

#[test]
fn trades_need_liquidity() {
    let mut c = contract();
    c.create_market(&market_args(1000, 2000, 0), 10).unwrap();
    let r = c.buy(&"bob".to_string(), UNIT, BuyArgs { market_id: 0, outcome_target: 0, min_shares_out: 0 }, 20);
    assert_eq!(r, Err(AmmError::Math(MathError::InsufficientLiquidity)));
    let msg = Payload::BuyArgs(BuyArgs { market_id: 0, outcome_target: 0, min_shares_out: 0 });
    assert_eq!(c.ft_on_transfer("bob".to_string(), UNIT, msg, 20), UNIT);
}
