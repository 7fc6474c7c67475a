use oracle::contract::Contract;
use oracle::errors::OracleError;
use oracle::fee_config::{fee_share, stake_cost, CustomFeeStakeArgs, FeeBand, FeeConfig};
use oracle::helpers::{
    assert_prev_promise_successful, assert_self, calc_product, is_promise_success, ns_to_ms,
    refund_storage, STORAGE_PRICE_PER_BYTE,
};
use oracle::oracle_config::OracleConfig;
use oracle::requester_handler::Requester;
use oracle::types::{outcome_to_id, AnswerType, NumberOutcome, Outcome};
use oracle::{NewDataRequestArgs, Source};

#[test]
fn fixed_and_multiplier_stake_costs() {
    assert_eq!(stake_cost(200, CustomFeeStakeArgs::Fixed(100)), Ok(100));
    assert_eq!(stake_cost(200, CustomFeeStakeArgs::Multiplier(10500)), Ok(210));
    assert_eq!(stake_cost(200, CustomFeeStakeArgs::Base), Ok(200));
    assert_eq!(
        stake_cost(u128::MAX, CustomFeeStakeArgs::Multiplier(2)),
        Err(OracleError::ArithmeticOverflow)
    );
}

#[test]
fn product_without_overflow() {
    assert_eq!(calc_product(10, 20, 3), 66);
    assert_eq!(calc_product(u128::MAX, u128::MAX, u128::MAX), u128::MAX);
    assert_eq!(calc_product(u128::MAX, 2, 4), u128::MAX / 2);
    assert_eq!(calc_product(0, 5, 7), 0);
}

#[test]
fn fee_bands() {
    let config = FeeConfig {
        bands: vec![
            FeeBand { threshold: 100, percentage: 100 },
            FeeBand { threshold: 1_000, percentage: 200 },
            FeeBand { threshold: 10_000, percentage: 300 },
        ],
    };
    assert_eq!(config.resolution_fee_percentage(5), 100);
    assert_eq!(config.resolution_fee_percentage(100), 100);
    assert_eq!(config.resolution_fee_percentage(999), 100);
    assert_eq!(config.resolution_fee_percentage(1_000), 200);
    assert_eq!(config.resolution_fee_percentage(u128::MAX), 300);
    assert_eq!(fee_share(100, 5_000), 50);
    assert_eq!(fee_share(99, 5_000), 49);
}

#[test]
fn outcome_ids() {
    assert_eq!(outcome_to_id(&Outcome::Answer(AnswerType::String("test".to_string()))), "ans_str_test");
    let n = NumberOutcome { value: 1205, multiplier: 3, negative: true };
    assert_eq!(outcome_to_id(&Outcome::Answer(AnswerType::Number(n))), "ans_num_1205_3_true");
    let z = NumberOutcome { value: 0, multiplier: 10, negative: false };
    assert_eq!(outcome_to_id(&Outcome::Answer(AnswerType::Number(z))), "ans_num_0_10_false");
    assert_eq!(outcome_to_id(&Outcome::Invalid), "invalid");
    assert_eq!(outcome_to_id(&Outcome::Answer(AnswerType::String("invalid".to_string()))), "ans_str_invalid");
}

#[test]
fn outcome_equality() {
    let a = Outcome::Answer(AnswerType::String("x".to_string()));
    assert!(a.same_as(&a.duplicate()));
    assert!(!a.same_as(&Outcome::Invalid));
    let n = Outcome::Answer(AnswerType::Number(NumberOutcome { value: 1, multiplier: 0, negative: false }));
    let m = Outcome::Answer(AnswerType::Number(NumberOutcome { value: 1, multiplier: 0, negative: true }));
    assert!(!n.same_as(&m));
}

#[test]
fn time_and_promises() {
    assert_eq!(ns_to_ms(1_999_999), 1);
    assert_eq!(is_promise_success(1, true), Ok(true));
    assert_eq!(is_promise_success(1, false), Ok(false));
    assert_eq!(is_promise_success(2, true), Err(OracleError::UpstreamFailure));
    assert_eq!(assert_prev_promise_successful(1, true), Ok(()));
    assert_eq!(assert_prev_promise_successful(1, false), Err(OracleError::UpstreamFailure));
}

#[test]
fn requester_without_whitelist() {
    let r = Requester::new_no_whitelist(&"req".to_string());
    assert_eq!(r.contract_name, "");
    assert_eq!(r.account_id, "req");
    assert!(r.stake_multiplier.is_none());
    assert!(r.code_base_url.is_none());
    assert_eq!(r.custom_fee(), CustomFeeStakeArgs::Base);
}

fn config() -> OracleConfig {
    OracleConfig {
        gov: "gov".to_string(),
        final_arbitrator: "arb".to_string(),
        bond_token: "token".to_string(),
        stake_token: "token".to_string(),
        validity_bond: 100,
        max_outcomes: 2,
        default_challenge_window_duration: 1000,
        min_initial_challenge_window_duration: 500,
        final_arbitrator_invoke_amount: 250,
        fee: FeeConfig { bands: vec![FeeBand { threshold: 0, percentage: 10_000 }] },
    }
}

fn args(period: u64, outcomes: Option<Vec<String>>, sources: usize) -> NewDataRequestArgs {
    NewDataRequestArgs {
        sources: (0..sources)
            .map(|_| Source { end_point: "e".to_string(), source_path: "p".to_string() })
            .collect(),
        outcomes,
        settlement_time: 0,
        challenge_period: period,
        target_contract: "t".to_string(),
    }
}

#[test]
fn contract_validation_and_governance() {
    let mut c = Contract::new(config());
    assert_eq!(c.assert_gov(&"gov".to_string()), Ok(()));
    assert_eq!(c.assert_gov(&"other".to_string()), Err(OracleError::Unauthorized));
    assert_eq!(c.dr_validate(&args(1000, None, 8)), Ok(()));
    assert_eq!(c.dr_validate(&args(1000, None, 9)), Err(OracleError::InvalidRequest));
    assert_eq!(c.dr_validate(&args(499, None, 1)), Err(OracleError::InvalidRequest));
    assert_eq!(c.dr_validate(&args(3001, None, 1)), Err(OracleError::InvalidRequest));
    let three = Some(vec!["a".to_string(), "b".to_string(), "c".to_string()]);
    assert_eq!(c.dr_validate(&args(1000, three, 1)), Err(OracleError::InvalidRequest));
    let r = Requester::new_no_whitelist(&"req".to_string());
    assert_eq!(c.dr_new(r, 10, args(1000, None, 1)), Ok(0));
    assert!(c.dr_exists(0));
    assert!(!c.dr_exists(1));
    assert_eq!(c.data_requests[0].validity_bond, 100);
    let r = Requester::new_no_whitelist(&"req".to_string());
    assert_eq!(
        c.ft_dr_new_callback(r, 10, args(1000, None, 1), false),
        Ok(10)
    );
    assert!(!c.dr_exists(1));
    let r = Requester::new_no_whitelist(&"req".to_string());
    assert_eq!(c.ft_dr_new_callback(r, 10, args(1000, None, 1), true), Ok(0));
    assert!(c.dr_exists(1));
}

#[test]
fn storage_refunds() {
    assert_eq!(refund_storage(10, 12, 5 * STORAGE_PRICE_PER_BYTE), Ok(3 * STORAGE_PRICE_PER_BYTE));
    assert_eq!(refund_storage(10, 12, STORAGE_PRICE_PER_BYTE), Err(OracleError::InsufficientDeposit));
    assert_eq!(refund_storage(12, 10, 7), Ok(7 + 2 * STORAGE_PRICE_PER_BYTE));
    assert_eq!(refund_storage(10, 10, 7), Ok(7));
    assert_eq!(refund_storage(0, u64::MAX, u128::MAX), Err(OracleError::InsufficientDeposit));
    assert_eq!(refund_storage(u64::MAX, 0, 0), Err(OracleError::ArithmeticOverflow));
}

#[test]
fn self_calls_only() {
    assert_eq!(assert_self(&"oracle".to_string(), &"oracle".to_string()), Ok(()));
    assert_eq!(assert_self(&"alice".to_string(), &"oracle".to_string()), Err(OracleError::Unauthorized));
}

#[test]
fn outcome_notice_goes_to_requester() {
    let r = Requester::new_no_whitelist(&"req".to_string());
    let notice = r.set_outcome(Outcome::Invalid, vec!["t".to_string()], true);
    assert_eq!(notice.requester, "req");
    assert!(notice.outcome.same_as(&Outcome::Invalid));
    assert_eq!(notice.tags, vec!["t".to_string()]);
    assert!(notice.final_arbitrator_triggered);
}

#[test]
fn contract_routes_by_id() {
    let mut c = Contract::new(config());
    let a = "a".to_string();
    let x = Outcome::Answer(AnswerType::String("x".to_string()));
    assert_eq!(c.dr_open(0, 0, 1), Err(OracleError::NoSuchRequest));
    assert_eq!(c.dr_stake(0, &a, &x, 10, 0), Err(OracleError::NoSuchRequest));
    assert_eq!(c.dr_finalize(0, 0), Err(OracleError::NoSuchRequest));
    assert!(c.dr_claim(0, &a).is_err());
    let r = Requester::new_no_whitelist(&"req".to_string());
    c.dr_new(r, 10, args(1000, None, 1)).unwrap();
    c.dr_open(0, 0, 1).unwrap();
    assert_eq!(c.dr_stake(0, &a, &x, 150, 5), Ok((100, 50)));
    assert_eq!(c.dr_final_arbitration(0, &"gov".to_string(), Outcome::Invalid), Err(OracleError::Unauthorized));
    assert_eq!(c.dr_final_arbitration(0, &"arb".to_string(), Outcome::Invalid), Ok(0));
    assert_eq!(c.dr_finalize(0, 10_000), Err(OracleError::AlreadyFinalized));
    assert_eq!(c.dr_claim(0, &a).unwrap().amount, 0);
    assert_eq!(c.dr_claim(0, &a).unwrap_err(), OracleError::AlreadyClaimed);
}

#[test]
fn event_log_keys() {
    let x = Outcome::Answer(AnswerType::String("yes".to_string()));
    assert_eq!(oracle::log_keys::data_request_key(42), "dr_42");
    assert_eq!(oracle::log_keys::resolution_window_key(7, 3), "rw_7_3");
    assert_eq!(oracle::log_keys::outcome_stake_key(7, 0, &x), "ots_7_0_ans_str_yes");
    assert_eq!(oracle::log_keys::user_stake_key(7, 1, &Outcome::Invalid, &"bob".to_string()), "us_7_1_invalid_bob");
    assert_eq!(oracle::log_keys::claim_key(&"bob".to_string(), 12), "c_bob_12");
}
