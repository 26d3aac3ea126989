use betting_exchange::contract::{
    execute_cancel_order, execute_create_event, execute_place_order, execute_resolve_event,
    instantiate, DECIMAL_FRACTIONAL,
};
use betting_exchange::msg::{InstantiateMsg, OrderType, Outcome};
use betting_exchange::state::{Coin, Exchange};
use betting_exchange::ContractError;

const COIN_DENOM: &str = "uatom";
const TIME: u64 = 9_000_000;

fn percent_odds(p: u128) -> u128 {
    p * (DECIMAL_FRACTIONAL / 100)
}

fn one_coin(amount: u128) -> Vec<Coin> {
    vec![Coin { denom: COIN_DENOM.to_string(), amount }]
}

fn fresh_exchange() -> Exchange {
    instantiate(
        &"owner0001".to_string(),
        InstantiateMsg { admin: None, betting_denom: COIN_DENOM.to_string() },
    )
    .unwrap()
}

fn fresh_event(ex: &mut Exchange, deadline: Option<u64>) -> u64 {
    execute_create_event(
        ex,
        &"owner0001".to_string(),
        TIME,
        "An event".to_string(),
        Some("judge0001".to_string()),
        deadline,
    )
    .unwrap()
}

#[test]
fn instantiate_rejects_empty_denom() {
    let res = instantiate(
        &"owner0001".to_string(),
        InstantiateMsg { admin: None, betting_denom: String::new() },
    );
    assert!(matches!(res, Err(ContractError::InvalidDenom { .. })));
}

#[test]
fn create_event_rejects_empty_description() {
    let mut ex = fresh_exchange();
    let res = execute_create_event(
        &mut ex,
        &"owner0001".to_string(),
        TIME,
        String::new(),
        None,
        None,
    );
    assert!(matches!(res, Err(ContractError::InvalidDescription {})));
}

#[test]
fn place_rejects_zero_stake() {
    let mut ex = fresh_exchange();
    fresh_event(&mut ex, None);
    let res = execute_place_order(
        &mut ex,
        &"alice".to_string(),
        &one_coin(0),
        TIME,
        1,
        OrderType::Back,
        Outcome::Yes,
        0,
        percent_odds(200),
    );
    assert!(matches!(res, Err(ContractError::InvalidStakeAmount {})));
}

#[test]
fn place_rejects_odds_at_or_below_one() {
    let mut ex = fresh_exchange();
    fresh_event(&mut ex, None);
    let res = execute_place_order(
        &mut ex,
        &"alice".to_string(),
        &one_coin(1_000),
        TIME,
        1,
        OrderType::Back,
        Outcome::Yes,
        1_000,
        DECIMAL_FRACTIONAL,
    );
    assert!(matches!(res, Err(ContractError::InvalidOdds {})));
}

#[test]
fn place_rejects_unknown_event() {
    let mut ex = fresh_exchange();
    let res = execute_place_order(
        &mut ex,
        &"alice".to_string(),
        &one_coin(1_000),
        TIME,
        7,
        OrderType::Back,
        Outcome::Yes,
        1_000,
        percent_odds(200),
    );
    assert!(matches!(res, Err(ContractError::EventNotFound { event_id: 7 })));
}

#[test]
fn place_rejects_passed_deadline() {
    let mut ex = fresh_exchange();
    fresh_event(&mut ex, Some(TIME + 100));
    let res = execute_place_order(
        &mut ex,
        &"alice".to_string(),
        &one_coin(1_000),
        TIME + 101,
        1,
        OrderType::Back,
        Outcome::Yes,
        1_000,
        percent_odds(200),
    );
    assert!(matches!(res, Err(ContractError::DeadlinePassed {})));
}

#[test]
fn place_rejects_missing_funds() {
    let mut ex = fresh_exchange();
    fresh_event(&mut ex, None);
    let res = execute_place_order(
        &mut ex,
        &"alice".to_string(),
        &Vec::new(),
        TIME,
        1,
        OrderType::Back,
        Outcome::Yes,
        1_000,
        percent_odds(200),
    );
    assert!(matches!(res, Err(ContractError::NoFundsSent {})));
}

#[test]
fn place_rejects_multiple_coins() {
    let mut ex = fresh_exchange();
    fresh_event(&mut ex, None);
    let two = vec![
        Coin { denom: COIN_DENOM.to_string(), amount: 500 },
        Coin { denom: "uosmo".to_string(), amount: 500 },
    ];
    let res = execute_place_order(
        &mut ex,
        &"alice".to_string(),
        &two,
        TIME,
        1,
        OrderType::Back,
        Outcome::Yes,
        1_000,
        percent_odds(200),
    );
    assert!(matches!(res, Err(ContractError::MultipleCoinsSent {})));
}

#[test]
fn place_rejects_wrong_denom() {
    let mut ex = fresh_exchange();
    fresh_event(&mut ex, None);
    let wrong = vec![Coin { denom: "uosmo".to_string(), amount: 1_000 }];
    let res = execute_place_order(
        &mut ex,
        &"alice".to_string(),
        &wrong,
        TIME,
        1,
        OrderType::Back,
        Outcome::Yes,
        1_000,
        percent_odds(200),
    );
    match res {
        Err(ContractError::InvalidDenom { expected_denom, received_denom }) => {
            assert_eq!(expected_denom, COIN_DENOM);
            assert_eq!(received_denom, "uosmo");
        },
        _ => panic!("expected InvalidDenom"),
    }
}

#[test]
fn place_rejects_mismatched_deposit() {
    let mut ex = fresh_exchange();
    fresh_event(&mut ex, None);
    let res = execute_place_order(
        &mut ex,
        &"alice".to_string(),
        &one_coin(999),
        TIME,
        1,
        OrderType::Back,
        Outcome::Yes,
        1_000,
        percent_odds(200),
    );
    assert!(matches!(
        res,
        Err(ContractError::InsufficientFundsSent { required: 1_000, sent: 999 })
    ));
}

#[test]
fn place_rejects_lay_deposit_overflow() {
    let mut ex = fresh_exchange();
    fresh_event(&mut ex, None);
    let res = execute_place_order(
        &mut ex,
        &"alice".to_string(),
        &one_coin(1_000),
        TIME,
        1,
        OrderType::Lay,
        Outcome::Yes,
        u128::MAX,
        percent_odds(300),
    );
    assert!(matches!(res, Err(ContractError::CalculationError {})));
}

#[test]
fn cancel_rejects_unknown_order() {
    let mut ex = fresh_exchange();
    let res = execute_cancel_order(&mut ex, &"alice".to_string(), 4);
    assert!(matches!(res, Err(ContractError::OrderNotFound { order_id: 4 })));
}

#[test]
fn cancel_rejects_non_owner() {
    let mut ex = fresh_exchange();
    fresh_event(&mut ex, None);
    execute_place_order(
        &mut ex,
        &"alice".to_string(),
        &one_coin(1_000),
        TIME,
        1,
        OrderType::Back,
        Outcome::Yes,
        1_000,
        percent_odds(200),
    )
    .unwrap();
    let res = execute_cancel_order(&mut ex, &"mallory".to_string(), 1);
    assert!(matches!(res, Err(ContractError::Unauthorized {})));
}

#[test]
fn cancel_rejects_filled_order() {
    let mut ex = fresh_exchange();
    fresh_event(&mut ex, None);
    let odds = percent_odds(200);
    execute_place_order(
        &mut ex,
        &"alice".to_string(),
        &one_coin(1_000),
        TIME,
        1,
        OrderType::Back,
        Outcome::Yes,
        1_000,
        odds,
    )
    .unwrap();
    execute_place_order(
        &mut ex,
        &"bob".to_string(),
        &one_coin(1_000),
        TIME,
        1,
        OrderType::Lay,
        Outcome::Yes,
        1_000,
        odds,
    )
    .unwrap();
    let res = execute_cancel_order(&mut ex, &"alice".to_string(), 1);
    assert!(matches!(res, Err(ContractError::CannotCancelFilledOrder { order_id: 1 })));
}

#[test]
fn resolve_aborts_whole_operation_on_pot_overflow() {
    let mut ex = fresh_exchange();
    fresh_event(&mut ex, None);
    // odds one atomic above 1.0: the lay deposit fits u128, but the pot
    // (backer stake plus liability) of the matched bet does not
    let odds = DECIMAL_FRACTIONAL + 1;
    let stake = u128::MAX - 100;
    execute_place_order(
        &mut ex,
        &"alice".to_string(),
        &one_coin(stake),
        TIME,
        1,
        OrderType::Back,
        Outcome::Yes,
        stake,
        odds,
    )
    .unwrap();
    let lay_dep = stake / DECIMAL_FRACTIONAL;
    let res = execute_place_order(
        &mut ex,
        &"bob".to_string(),
        &one_coin(lay_dep),
        TIME,
        1,
        OrderType::Lay,
        Outcome::Yes,
        stake,
        odds,
    )
    .unwrap();
    assert!(res.order_fully_filled);
    let resolved = execute_resolve_event(&mut ex, &"judge0001".to_string(), 1, Outcome::Yes);
    assert!(matches!(resolved, Err(ContractError::CalculationError {})));
    // nothing was persisted: the event is still open
    let retry = execute_resolve_event(&mut ex, &"judge0001".to_string(), 1, Outcome::Yes);
    assert!(matches!(retry, Err(ContractError::CalculationError {})));
}

#[test]
fn resolve_rejects_unknown_event() {
    let mut ex = fresh_exchange();
    let res = execute_resolve_event(&mut ex, &"judge0001".to_string(), 3, Outcome::Yes);
    assert!(matches!(res, Err(ContractError::EventNotFound { event_id: 3 })));
}

#[test]
fn resolve_rejects_non_oracle() {
    let mut ex = fresh_exchange();
    fresh_event(&mut ex, None);
    let res = execute_resolve_event(&mut ex, &"mallory".to_string(), 1, Outcome::Yes);
    assert!(matches!(res, Err(ContractError::OracleMismatch { event_id: 1 })));
}

#[test]
fn resolve_rejects_second_resolution() {
    let mut ex = fresh_exchange();
    fresh_event(&mut ex, None);
    execute_resolve_event(&mut ex, &"judge0001".to_string(), 1, Outcome::Yes).unwrap();
    let res = execute_resolve_event(&mut ex, &"judge0001".to_string(), 1, Outcome::No);
    assert!(matches!(res, Err(ContractError::EventAlreadyResolved { event_id: 1 })));
}
