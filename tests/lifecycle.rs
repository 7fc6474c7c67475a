use oracle::callback_args::NewDataRequestArgs;
use oracle::data_request::DataRequest;
use oracle::errors::OracleError;
use oracle::fee_config::{FeeBand, FeeConfig};
use oracle::requester_handler::Requester;
use oracle::types::{AnswerType, Outcome};

const START: u64 = 500;

fn answer(s: &str) -> Outcome {
    Outcome::Answer(AnswerType::String(s.to_string()))
}

fn full_fee() -> FeeConfig {
    FeeConfig { bands: vec![FeeBand { threshold: 0, percentage: 10_000 }] }
}

fn request(validity_bond: u128, paid_fee: u128, period: u64) -> DataRequest {
    let args = NewDataRequestArgs {
        sources: Vec::new(),
        outcomes: None,
        settlement_time: START,
        challenge_period: period,
        target_contract: "target".to_string(),
    };
    DataRequest::new(
        0,
        Requester::new_no_whitelist(&"requester".to_string()),
        args,
        paid_fee,
        validity_bond,
        "arbitrator".to_string(),
        vec!["tag".to_string()],
    )
}

fn open_request(validity_bond: u128, paid_fee: u128, period: u64) -> DataRequest {
    let mut dr = request(validity_bond, paid_fee, period);
    dr.open(START, 1, &full_fee()).unwrap();
    dr
}

#[test]
fn single_bond_finalizes_and_pays_once() {
    let a = "a".to_string();
    let x = answer("X");
    let mut dr = open_request(100, 40, 1000);
    assert_eq!(dr.stake(&a, &x, 100, START + 5), Ok((100, 0)));
    assert_eq!(dr.resolution_windows.len(), 2);
    assert!(dr.resolution_windows[0].bonded_outcome.is_some());
    let next = &dr.resolution_windows[1];
    assert_eq!(next.bond_size, 200);
    assert_eq!(next.end_time - next.start_time, 2000);
    assert_eq!(next.start_time, START + 5);
    assert_eq!(dr.finalize(START + 5 + 2000), Err(OracleError::ChallengeWindowOpen));
    assert_eq!(dr.finalize(START + 5 + 2001), Ok(0));
    assert!(dr.finalized_outcome.as_ref().unwrap().same_as(&x));
    assert!(!dr.final_arbitrator_triggered);
    let payout = dr.claim(&a).unwrap();
    assert_eq!(payout.user_correct_stake, 100);
    assert_eq!(payout.fee_profit, 40);
    assert_eq!(payout.amount, 140);
    assert_eq!(dr.claim(&a).unwrap_err(), OracleError::AlreadyClaimed);
}

#[test]
fn surplus_above_bond_is_refunded() {
    let a = "a".to_string();
    let mut dr = open_request(100, 0, 1000);
    assert_eq!(dr.stake(&a, &answer("X"), 250, START), Ok((100, 150)));
    assert_eq!(dr.resolution_windows[0].total_staked, 100);
    assert_eq!(dr.resolution_windows[0].total_on(&answer("X")), 100);
}

#[test]
fn restaking_bonded_outcome_is_no_challenge() {
    let a = "a".to_string();
    let mut dr = open_request(100, 0, 1000);
    dr.stake(&a, &answer("X"), 100, START).unwrap();
    assert_eq!(dr.stake(&a, &answer("X"), 10, START + 1), Err(OracleError::NoChallengePossible));
}

#[test]
fn bonded_round_refunds_same_outcome_and_rejects_others() {
    let a = "a".to_string();
    let mut dr = open_request(100, 0, 1000);
    dr.stake(&a, &answer("X"), 100, START).unwrap();
    let mut w = dr.resolution_windows.remove(0);
    assert_eq!(w.stake(&a, &answer("X"), 30, START), Ok((0, 30)));
    assert_eq!(w.stake(&a, &answer("Y"), 30, START), Err(OracleError::OutcomeAlreadyBonded));
    assert_eq!(w.unstake(&a, &answer("X"), 10), Err(OracleError::RoundAlreadyBonded));
}

#[test]
fn unstake_before_bond() {
    let a = "a".to_string();
    let b = "b".to_string();
    let mut dr = open_request(100, 0, 1000);
    dr.stake(&a, &answer("X"), 60, START).unwrap();
    dr.stake(&b, &answer("Y"), 70, START).unwrap();
    let w = &mut dr.resolution_windows[0];
    assert_eq!(w.total_staked, 130);
    assert_eq!(w.unstake(&a, &answer("X"), 61), Err(OracleError::InsufficientStake));
    assert_eq!(w.unstake(&a, &answer("X"), 20), Ok(20));
    assert_eq!(w.user_stake(&a, &answer("X")), 40);
    assert_eq!(w.total_on(&answer("X")), 40);
    assert_eq!(w.total_staked, 110);
    assert!(w.bonded_outcome.is_none());
}

#[test]
fn each_outcome_stays_within_bond() {
    let a = "a".to_string();
    let b = "b".to_string();
    let mut dr = open_request(100, 0, 1000);
    assert_eq!(dr.stake(&a, &answer("X"), 60, START), Ok((60, 0)));
    assert_eq!(dr.stake(&b, &answer("Y"), 60, START), Ok((60, 0)));
    let w = &dr.resolution_windows[0];
    assert!(w.total_on(&answer("X")) <= w.bond_size);
    assert!(w.total_on(&answer("Y")) <= w.bond_size);
    assert!(w.bonded_outcome.is_none());
    assert_eq!(dr.stake(&b, &answer("Y"), 60, START), Ok((40, 20)));
    assert_eq!(dr.resolution_windows[0].total_on(&answer("Y")), 100);
    assert!(dr.resolution_windows[0].bonded_outcome.as_ref().unwrap().same_as(&answer("Y")));
}

#[test]
fn rounds_double_bond_and_window() {
    let a = "a".to_string();
    let b = "b".to_string();
    let mut dr = open_request(100, 0, 1000);
    dr.stake(&a, &answer("X"), 100, START).unwrap();
    dr.stake(&b, &answer("Y"), 200, START + 1).unwrap();
    assert_eq!(dr.resolution_windows.len(), 3);
    let bonds: Vec<u128> = dr.resolution_windows.iter().map(|w| w.bond_size).collect();
    let lengths: Vec<u64> = dr.resolution_windows.iter().map(|w| w.end_time - w.start_time).collect();
    assert_eq!(bonds, vec![100, 200, 400]);
    assert_eq!(lengths, vec![1000, 2000, 4000]);
    let rounds: Vec<u16> = dr.resolution_windows.iter().map(|w| w.round).collect();
    assert_eq!(rounds, vec![0, 1, 2]);
}

#[test]
fn challenger_takes_incorrect_stake_of_its_round() {
    let a = "a".to_string();
    let b = "b".to_string();
    let c = "c".to_string();
    let mut dr = open_request(100, 30, 1000);
    dr.stake(&a, &answer("X"), 100, START).unwrap();
    dr.stake(&c, &answer("Z"), 50, START + 1).unwrap();
    dr.stake(&b, &answer("Y"), 200, START + 2).unwrap();
    assert_eq!(dr.finalize(START + 2 + 4001), Ok(0));
    let pb = dr.claim(&b).unwrap();
    assert_eq!(pb.user_correct_stake, 200);
    assert_eq!(pb.total_correct_staked, 200);
    assert_eq!(pb.total_incorrect_staked, 150);
    assert_eq!(pb.stake_profit, 150);
    assert_eq!(pb.fee_profit, 30);
    assert_eq!(pb.amount, 380);
    let pa = dr.claim(&a).unwrap();
    assert_eq!(pa.amount, 0);
    let pc = dr.claim(&c).unwrap();
    assert_eq!(pc.amount, 0);
    let staked: u128 = dr.resolution_windows.iter().map(|w| w.total_staked).sum();
    assert_eq!(pa.amount + pb.amount + pc.amount, staked + 30);
}

#[test]
fn forfeited_bond_goes_to_challenger() {
    let a = "a".to_string();
    let b = "b".to_string();
    let mut dr = open_request(100, 0, 1000);
    dr.stake(&a, &answer("X"), 100, START).unwrap();
    dr.stake(&b, &answer("Y"), 200, START + 1).unwrap();
    assert_eq!(dr.finalize(START + 1 + 4001), Ok(0));
    assert_eq!(dr.claim(&b).unwrap().amount, 300);
    assert_eq!(dr.claim(&a).unwrap().amount, 0);
}

#[test]
fn payouts_lose_only_rounding_dust() {
    let a = "a".to_string();
    let b = "b".to_string();
    let c = "c".to_string();
    let d = "d".to_string();
    let mut dr = open_request(3, 10, 1000);
    dr.stake(&c, &answer("X"), 3, START).unwrap();
    dr.stake(&a, &answer("Y"), 1, START + 1).unwrap();
    dr.stake(&d, &answer("Z"), 4, START + 1).unwrap();
    dr.stake(&b, &answer("Y"), 5, START + 1).unwrap();
    assert_eq!(dr.finalize(START + 1 + 4001), Ok(0));
    let paid: u128 = [&a, &b, &c, &d].iter().map(|s| dr.claim(s).unwrap().amount).sum();
    let staked: u128 = dr.resolution_windows.iter().map(|w| w.total_staked).sum();
    assert_eq!(staked, 13);
    assert!(paid <= staked + 10);
    assert!(staked + 10 < paid + 2 * 2);
    assert_eq!(paid, 21);
}

#[test]
fn proportional_shares_round_down() {
    let a = "a".to_string();
    let b = "b".to_string();
    let c = "c".to_string();
    let mut dr = open_request(3, 10, 1000);
    dr.stake(&c, &answer("Z"), 2, START).unwrap();
    dr.stake(&a, &answer("X"), 1, START).unwrap();
    dr.stake(&b, &answer("X"), 5, START).unwrap();
    assert_eq!(dr.finalize(START + 2001), Ok(0));
    let pa = dr.claim(&a).unwrap();
    let pb = dr.claim(&b).unwrap();
    assert_eq!((pa.stake_profit, pa.fee_profit, pa.amount), (0, 3, 4));
    assert_eq!((pb.stake_profit, pb.fee_profit, pb.amount), (1, 6, 9));
    assert_eq!(dr.claim(&c).unwrap().amount, 0);
    assert!(pa.amount + pb.amount <= 3 + 2 + 10);
    assert!(3 + 2 + 10 < pa.amount + pb.amount + 2 * 2);
}

#[test]
fn arbitration_overrides_open_windows() {
    let a = "a".to_string();
    let mut dr = open_request(100, 0, 1000);
    dr.stake(&a, &answer("X"), 100, START).unwrap();
    assert_eq!(
        dr.finalize_by_arbitration(&"someone".to_string(), answer("Y")),
        Err(OracleError::Unauthorized)
    );
    assert_eq!(dr.finalize_by_arbitration(&"arbitrator".to_string(), answer("Y")), Ok(0));
    assert!(dr.final_arbitrator_triggered);
    assert!(dr.finalized_outcome.as_ref().unwrap().same_as(&answer("Y")));
    assert_eq!(dr.finalize(START + 100_000), Err(OracleError::AlreadyFinalized));
    assert_eq!(dr.stake(&a, &answer("Z"), 5, START + 1), Err(OracleError::AlreadyFinalized));
    assert_eq!(
        dr.finalize_by_arbitration(&"arbitrator".to_string(), answer("X")),
        Err(OracleError::AlreadyFinalized)
    );
    assert!(dr.finalized_outcome.as_ref().unwrap().same_as(&answer("Y")));
    assert_eq!(dr.claim(&a).unwrap().amount, 0);
}

#[test]
fn lifecycle_errors() {
    let a = "a".to_string();
    let mut pending = request(100, 0, 1000);
    assert_eq!(pending.stake(&a, &answer("X"), 10, START), Err(OracleError::NotOpen));
    assert_eq!(pending.open(START - 1, 1, &full_fee()), Err(OracleError::NotOpen));
    assert_eq!(pending.claim(&a).unwrap_err(), OracleError::NotFinalized);
    assert_eq!(pending.finalize(START), Err(OracleError::NothingBonded));
    assert_eq!(request(0, 0, 1000).open(START, 1, &full_fee()), Err(OracleError::InvalidRequest));
    let mut dr = open_request(100, 0, 1000);
    assert_eq!(dr.open(START, 1, &full_fee()), Err(OracleError::InvalidRound));
    assert_eq!(dr.stake(&a, &answer("X"), 10, START + 1001), Err(OracleError::InvalidRound));
    assert_eq!(dr.finalize(START + 5000), Err(OracleError::NothingBonded));
}

#[test]
fn fee_percentage_fixed_at_open() {
    let bands = FeeConfig {
        bands: vec![
            FeeBand { threshold: 1_000, percentage: 500 },
            FeeBand { threshold: 10_000, percentage: 2_500 },
        ],
    };
    let mut dr = request(100, 1_000, 1000);
    dr.open(START, 20_000, &bands).unwrap();
    assert_eq!(dr.resolution_fee_percentage, Some(2_500));
    let a = "a".to_string();
    dr.stake(&a, &answer("X"), 100, START).unwrap();
    assert_eq!(dr.finalize(START + 2001), Ok(750));
    assert_eq!(dr.claim(&a).unwrap().fee_profit, 250);
}

#[test]
fn unstake_from_open_round_only() {
    let a = "a".to_string();
    let b = "b".to_string();
    let mut dr = open_request(100, 0, 1000);
    dr.stake(&a, &answer("X"), 100, START).unwrap();
    dr.stake(&b, &answer("Y"), 50, START + 1).unwrap();
    assert_eq!(dr.unstake(&a, 0, &answer("X"), 10), Err(OracleError::RoundAlreadyBonded));
    assert_eq!(dr.unstake(&b, 2, &answer("Y"), 10), Err(OracleError::InvalidRound));
    assert_eq!(dr.unstake(&b, 1, &answer("Y"), 51), Err(OracleError::InsufficientStake));
    assert_eq!(dr.unstake(&b, 1, &answer("Y"), 30), Ok(30));
    assert_eq!(dr.resolution_windows[1].user_stake(&b, &answer("Y")), 20);
    assert_eq!(dr.resolution_windows[1].total_staked, 20);
    dr.finalize(START + 2001).unwrap();
    assert_eq!(dr.unstake(&b, 1, &answer("Y"), 10), Err(OracleError::AlreadyFinalized));
}
