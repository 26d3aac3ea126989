use betting_exchange::contract::{
    execute_cancel_order, execute_create_event, execute_place_order, execute_resolve_event,
    instantiate, query_config, query_event, query_list_matched_bets_by_event, query_order,
    DECIMAL_FRACTIONAL,
};
use betting_exchange::msg::{EventStatus, InstantiateMsg, OrderStatus, OrderType, Outcome};
use betting_exchange::state::{Coin, Exchange};
use betting_exchange::ContractError;

const ADMIN: &str = "admin0001";
const USER1: &str = "user0001";
const USER2: &str = "user0002";
const USER3: &str = "user0003";
const ORACLE: &str = "oracle0001";
const BETTING_DENOM: &str = "uinj";
const NOW: u64 = 1_571_797_419;

fn decimal_times_uint128_trunc_for_test(decimal_atomics: u128, amount: u128) -> u128 {
    decimal_atomics.checked_mul(amount).unwrap() / DECIMAL_FRACTIONAL
}

fn odds_percent(p: u128) -> u128 {
    p * (DECIMAL_FRACTIONAL / 100)
}

fn liability(odds: u128, stake: u128) -> u128 {
    decimal_times_uint128_trunc_for_test(odds - DECIMAL_FRACTIONAL, stake)
}

fn coins(amount: u128) -> Vec<Coin> {
    vec![Coin { denom: BETTING_DENOM.to_string(), amount }]
}

fn setup_exchange() -> Exchange {
    instantiate(
        &ADMIN.to_string(),
        InstantiateMsg { admin: Some(ADMIN.to_string()), betting_denom: BETTING_DENOM.to_string() },
    )
    .unwrap()
}

fn create_default_event(ex: &mut Exchange, creator: &str, description: &str, oracle: Option<&str>) -> u64 {
    execute_create_event(
        ex,
        &creator.to_string(),
        NOW,
        description.to_string(),
        oracle.map(|o| o.to_string()),
        None,
    )
    .unwrap()
}

fn place(
    ex: &mut Exchange,
    sender: &str,
    event_id: u64,
    order_type: OrderType,
    outcome: Outcome,
    stake: u128,
    odds: u128,
    funds_amount: u128,
) -> Result<betting_exchange::contract::PlaceOrderResponse, ContractError> {
    execute_place_order(
        ex,
        &sender.to_string(),
        &coins(funds_amount),
        NOW,
        event_id,
        order_type,
        outcome,
        stake,
        odds,
    )
}

#[test]
fn proper_initialization() {
    let ex = setup_exchange();
    let config = query_config(&ex);
    assert_eq!(config.admin, ADMIN);
    assert_eq!(config.betting_denom, BETTING_DENOM);
    assert_eq!(config.next_event_id, 0);
    assert_eq!(config.next_order_id, 0);
    assert_eq!(config.next_bet_id, 0);
}

#[test]
fn create_event() {
    let mut ex = setup_exchange();
    let event_id_1 = execute_create_event(
        &mut ex,
        &USER1.to_string(),
        NOW,
        "Will it rain tomorrow?".to_string(),
        None,
        Some(NOW + 10000),
    )
    .unwrap();
    assert_eq!(event_id_1, 1);
    let event_res = query_event(&ex, 1).unwrap();
    assert_eq!(event_res.event.id, 1);
    assert_eq!(event_res.event.oracle, USER1);

    let event_id_2 = execute_create_event(
        &mut ex,
        &USER2.to_string(),
        NOW,
        "Price of ATOM > $10 by EOY?".to_string(),
        Some(ORACLE.to_string()),
        None,
    )
    .unwrap();
    assert_eq!(event_id_2, 2);
    let event_res_2 = query_event(&ex, 2).unwrap();
    assert_eq!(event_res_2.event.oracle, ORACLE);
}

#[test]
fn place_back_order_no_match() {
    let mut ex = setup_exchange();
    create_default_event(&mut ex, USER1, "Test Event 1", None);
    let stake_amount: u128 = 100_000;
    let odds = odds_percent(250);
    let res = place(&mut ex, USER2, 1, OrderType::Back, Outcome::Yes, stake_amount, odds, stake_amount)
        .unwrap();
    assert_eq!(res.order_id, 1);
    let order_res = query_order(&ex, 1).unwrap();
    assert_eq!(order_res.order.status, OrderStatus::Open);
    // the contract holds exactly the backer's stake for this order
    assert_eq!(order_res.order.remaining_backer_stake, stake_amount);
}

#[test]
fn place_lay_order_no_match() {
    let mut ex = setup_exchange();
    create_default_event(&mut ex, USER1, "Test", None);
    let backer_stake_to_match: u128 = 50_000;
    let odds = odds_percent(200);
    let layer_liability = liability(odds, backer_stake_to_match);
    let res = place(
        &mut ex,
        USER3,
        1,
        OrderType::Lay,
        Outcome::Yes,
        backer_stake_to_match,
        odds,
        layer_liability,
    )
    .unwrap();
    assert_eq!(res.order_id, 1);
    let order_res = query_order(&ex, 1).unwrap();
    assert_eq!(order_res.order.status, OrderStatus::Open);
    // the contract holds exactly the layer's liability for this order
    assert_eq!(layer_liability, 50_000);
}

#[test]
fn place_orders_and_match_full() {
    let mut ex = setup_exchange();
    create_default_event(&mut ex, USER1, "Event X", Some(ORACLE));
    let back_stake: u128 = 100_000;
    let odds = odds_percent(300);
    place(&mut ex, USER1, 1, OrderType::Back, Outcome::Yes, back_stake, odds, back_stake).unwrap();
    let layer_liability = liability(odds, back_stake);
    let res_lay = place(
        &mut ex,
        USER2,
        1,
        OrderType::Lay,
        Outcome::Yes,
        back_stake,
        odds,
        layer_liability,
    )
    .unwrap();
    assert!(!res_lay.newly_matched_bet_ids.is_empty());
    let order1 = query_order(&ex, 1).unwrap();
    let order2 = query_order(&ex, 2).unwrap();
    assert_eq!(order1.order.status, OrderStatus::Filled);
    assert_eq!(order2.order.status, OrderStatus::Filled);
    // the contract holds the whole pot of the matched bet
    let bets = query_list_matched_bets_by_event(&ex, 1, None, None).matched_bets;
    assert_eq!(bets[0].backer_stake + bets[0].layer_liability, back_stake + layer_liability);
}

#[test]
fn place_orders_and_match_partial() {
    let mut ex = setup_exchange();
    create_default_event(&mut ex, ADMIN, "Event Partial", Some(ORACLE));
    let odds = odds_percent(200);
    let user1_back_stake: u128 = 100_000;
    place(&mut ex, USER1, 1, OrderType::Back, Outcome::No, user1_back_stake, odds, user1_back_stake)
        .unwrap();
    let user2_lay_backer_stake_to_match: u128 = 50_000;
    let user2_layer_liability = liability(odds, user2_lay_backer_stake_to_match);
    place(
        &mut ex,
        USER2,
        1,
        OrderType::Lay,
        Outcome::No,
        user2_lay_backer_stake_to_match,
        odds,
        user2_layer_liability,
    )
    .unwrap();
    let order1 = query_order(&ex, 1).unwrap();
    let order2 = query_order(&ex, 2).unwrap();
    assert_eq!(order1.order.status, OrderStatus::PartiallyFilled);
    assert_eq!(order1.order.remaining_backer_stake, 100_000 - 50_000);
    assert_eq!(order2.order.status, OrderStatus::Filled);
    assert_eq!(order2.order.remaining_backer_stake, 0);
}

#[test]
fn cancel_open_order() {
    let mut ex = setup_exchange();
    create_default_event(&mut ex, ADMIN, "Cancel Event", None);
    let stake: u128 = 70_000;
    place(&mut ex, USER1, 1, OrderType::Back, Outcome::Yes, stake, odds_percent(200), stake)
        .unwrap();
    let payments = execute_cancel_order(&mut ex, &USER1.to_string(), 1).unwrap();
    let order = query_order(&ex, 1).unwrap();
    assert_eq!(order.order.status, OrderStatus::Cancelled);
    // the owner gets the whole stake back
    assert_eq!(payments.len(), 1);
    assert_eq!(payments[0].to_address, USER1);
    assert_eq!(payments[0].amount, stake);
    assert_eq!(payments[0].denom, BETTING_DENOM);
}

#[test]
fn resolve_event_backer_wins() {
    let mut ex = setup_exchange();
    create_default_event(&mut ex, ADMIN, "Resolve Backer Win", Some(ORACLE));
    let back_stake: u128 = 100_000;
    let odds = odds_percent(200);
    let layer_liability = liability(odds, back_stake);
    place(&mut ex, USER1, 1, OrderType::Back, Outcome::Yes, back_stake, odds, back_stake).unwrap();
    place(&mut ex, USER2, 1, OrderType::Lay, Outcome::Yes, back_stake, odds, layer_liability)
        .unwrap();
    let payments = execute_resolve_event(&mut ex, &ORACLE.to_string(), 1, Outcome::Yes).unwrap();
    // the backer receives the whole pot
    assert_eq!(payments.len(), 1);
    assert_eq!(payments[0].to_address, USER1);
    assert_eq!(payments[0].amount, back_stake + layer_liability);
}

#[test]
fn resolve_event_layer_wins() {
    let mut ex = setup_exchange();
    create_default_event(&mut ex, ADMIN, "Resolve Layer Win", Some(ORACLE));
    let back_stake: u128 = 100_000;
    let odds = odds_percent(200);
    let layer_liability = liability(odds, back_stake);
    place(&mut ex, USER1, 1, OrderType::Back, Outcome::Yes, back_stake, odds, back_stake).unwrap();
    place(&mut ex, USER2, 1, OrderType::Lay, Outcome::Yes, back_stake, odds, layer_liability)
        .unwrap();
    let payments = execute_resolve_event(&mut ex, &ORACLE.to_string(), 1, Outcome::No).unwrap();
    // the layer receives the whole pot
    assert_eq!(payments.len(), 1);
    assert_eq!(payments[0].to_address, USER2);
    assert_eq!(payments[0].amount, back_stake + layer_liability);
}

#[test]
fn resolve_event_with_open_orders_refund() {
    let mut ex = setup_exchange();
    create_default_event(&mut ex, ADMIN, "Resolve with Open Orders", Some(ORACLE));
    let back_stake_matched: u128 = 100_000;
    let odds_matched = odds_percent(200);
    let liability_matched = liability(odds_matched, back_stake_matched);
    let res1 = place(
        &mut ex,
        USER1,
        1,
        OrderType::Back,
        Outcome::Yes,
        back_stake_matched,
        odds_matched,
        back_stake_matched,
    );
    assert!(res1.is_ok());
    let res2 = place(
        &mut ex,
        USER2,
        1,
        OrderType::Lay,
        Outcome::Yes,
        back_stake_matched,
        odds_matched,
        liability_matched,
    );
    assert!(res2.is_ok());
    let open_back_stake_user3: u128 = 50_000;
    place(
        &mut ex,
        USER3,
        1,
        OrderType::Back,
        Outcome::No,
        open_back_stake_user3,
        odds_percent(300),
        open_back_stake_user3,
    )
    .unwrap();
    let res_resolve = execute_resolve_event(&mut ex, &ORACLE.to_string(), 1, Outcome::Yes);
    assert!(res_resolve.is_ok());
    let payments = res_resolve.unwrap();
    let expected_user1_payout = back_stake_matched + liability_matched;
    // the matched bet pays its whole pot to the winning backer
    assert!(payments
        .iter()
        .any(|p| p.to_address == USER1 && p.amount == expected_user1_payout));
    // the still-open order of user3 is refunded in full, order id 3
    assert!(payments
        .iter()
        .any(|p| p.to_address == USER3 && p.amount == open_back_stake_user3));
    assert_eq!(query_order(&ex, 3).unwrap().order.status, OrderStatus::Cancelled);
    assert_eq!(query_event(&ex, 1).unwrap().event.status, EventStatus::Resolved);
}
