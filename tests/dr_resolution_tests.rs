use oracle::contract::Contract;
use oracle::fee_config::{CustomFeeStakeArgs, FeeBand, FeeConfig, PERCENTAGE_DIVISOR};
use oracle::oracle_config::OracleConfig;
use oracle::requester_handler::Requester;
use oracle::types::{AnswerType, Outcome};
use oracle::NewDataRequestArgs;

const SETTLEMENT: u64 = 1_000;

fn fee_config() -> FeeConfig {
    FeeConfig { bands: vec![FeeBand { threshold: 0, percentage: 10_000 }] }
}

fn config(validity_bond: u128) -> OracleConfig {
    OracleConfig {
        gov: "alice".to_string(),
        final_arbitrator: "alice".to_string(),
        bond_token: "token".to_string(),
        stake_token: "token".to_string(),
        validity_bond,
        max_outcomes: 8,
        default_challenge_window_duration: 1000,
        min_initial_challenge_window_duration: 1000,
        final_arbitrator_invoke_amount: 250,
        fee: fee_config(),
    }
}

fn args() -> NewDataRequestArgs {
    NewDataRequestArgs {
        sources: Vec::new(),
        outcomes: None,
        settlement_time: SETTLEMENT,
        challenge_period: 1000,
        target_contract: "target".to_string(),
    }
}

/// Creates a request of `requester`, paid `dr_cost`, stakes `stake_amount` on "test",
/// finalizes and claims; returns the staker's balance after staking and after claiming.
fn run_flow(validity_bond: u128, requester: Requester, dr_cost: u128, stake_amount: u128, init: u128) -> (u128, u128) {
    run_flow_with(validity_bond, requester, None, dr_cost, stake_amount, init)
}

fn run_flow_with(
    validity_bond: u128,
    requester: Requester,
    custom_fee: Option<CustomFeeStakeArgs>,
    dr_cost: u128,
    stake_amount: u128,
    init: u128,
) -> (u128, u128) {
    let alice = "alice".to_string();
    let mut balance = init;
    let mut contract = Contract::new(config(validity_bond));
    let id = contract.dr_new(requester, dr_cost, args()).unwrap();
    balance -= dr_cost;
    let dr_exist = contract.dr_exists(id);
    assert!(dr_exist, "something went wrong during dr creation");
    if let Some(fee) = custom_fee {
        contract.data_requests[id as usize].custom_fee = fee;
    }
    contract.dr_open(id, SETTLEMENT, 100_000).unwrap();
    let outcome = Outcome::Answer(AnswerType::String("test".to_string()));
    let (_taken, refund) = contract.dr_stake(id, &alice, &outcome, stake_amount, SETTLEMENT + 10).unwrap();
    balance = balance - stake_amount + refund;
    let post_stake = balance;
    let refund = contract.dr_finalize(id, SETTLEMENT + 10 + 2001).unwrap();
    balance += refund;
    let payout = contract.dr_claim(id, &alice).unwrap();
    balance += payout.amount;
    (post_stake, balance)
}

#[test]
fn dr_resolution_flow_test() {
    let stake_amount = 250;
    let stake_cost = 200;
    let dr_cost = 100;
    let init_balance_alice = 100_000;
    let requester = Requester::new_no_whitelist(&"alice".to_string());
    let (post_stake_balance_alice, post_claim_balance_alice) =
        run_flow(stake_cost, requester, dr_cost, stake_amount, init_balance_alice);
    assert_eq!(post_stake_balance_alice, init_balance_alice - stake_cost - dr_cost);
    assert_eq!(post_claim_balance_alice, init_balance_alice);
}

#[test]
fn dr_multiplier_flow() {
    let stake_cost: u64 = 200;
    let multiplier_amount: u16 = 10500; // 105%
    let stake_amount = 250;
    let dr_cost = 100;
    let init_balance_alice = 100_000;
    let mut requester = Requester::new_no_whitelist(&"alice".to_string());
    requester.stake_multiplier = Some(multiplier_amount);
    let (post_stake_balance_alice, post_claim_balance_alice) =
        run_flow(stake_cost as u128, requester, dr_cost, stake_amount, init_balance_alice);
    let weighted_stake_cost =
        u128::from(stake_cost * u64::from(multiplier_amount) / PERCENTAGE_DIVISOR as u64);
    assert_eq!(post_stake_balance_alice, init_balance_alice - dr_cost - weighted_stake_cost);
    assert_eq!(post_claim_balance_alice, init_balance_alice);
}

#[test]
fn dr_fixed_fee_flow() {
    let custom_fee_amount = 100;
    let custom_fee = CustomFeeStakeArgs::Fixed(custom_fee_amount);
    let stake_amount = 250;
    let dr_cost = 100;
    let init_balance_alice = 100_000;
    let requester = Requester::new_no_whitelist(&"alice".to_string());
    let (post_stake_balance_alice, post_claim_balance_alice) =
        run_flow_with(200, requester, Some(custom_fee), dr_cost, stake_amount, init_balance_alice);
    assert_eq!(post_stake_balance_alice, init_balance_alice - dr_cost - custom_fee_amount);
    assert_eq!(post_claim_balance_alice, init_balance_alice);
}
