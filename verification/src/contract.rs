//! The exchange's operations: the escrow calculator, event lifecycle, order
//! placement with FIFO matching, cancellation, resolution-time settlement,
//! and the read-only queries.

use vstd::prelude::*;

use crate::error::ContractError;
use crate::msg::{
    ConfigResponse, EventResponse, EventStatus, EventsResponse, InstantiateMsg,
    MatchedBetsResponse, OrderResponse, OrderStatus, OrderType, OrdersResponse, Outcome,
};
use crate::state::{
    bet_pot, bets_pot_for, event_obligations, lemma_bets_pot_push, lemma_bets_pot_zero,
    lemma_liability_split_bounds, lemma_mul_le_mono_right, lemma_order_reserved_bounds,
    lemma_orders_reserved_pointwise, lemma_orders_reserved_update, lemma_orders_reserved_zero,
    lemma_payments_total_concat, lemma_payout_seq_take_step, lemma_payout_seq_total,
    lemma_refund_seq_take_step, lemma_refund_seq_total, order_contrib, order_reserved,
    order_settled, orders_reserved_for, payments_total, payout_seq, processed_order, refund_seq,
    valid_bet, valid_order, wf, Coin, Config, Event, Exchange, MatchedBet, Order, Payment,
};

verus! {

/// One whole unit of the fixed-point odds scale: an odds value is a
/// multiplier in units of `1 / DECIMAL_FRACTIONAL` ("atomics"), so
/// `2_500_000_000_000_000_000` atomics are odds of 2.5.
pub const DECIMAL_FRACTIONAL: u128 = 1_000_000_000_000_000_000;

pub const DEFAULT_LIMIT: u32 = 10;

pub const MAX_LIMIT: u32 = 30;

/// Fixed-point multiplication truncated (floored) toward zero.
pub open spec fn mul_ratio_trunc(atomics: int, amount: int) -> int {
    (atomics * amount) / (DECIMAL_FRACTIONAL as int)
}

/// What a layer risks against a backer stake at the given odds:
/// `floor(stake * (odds - 1))` in the fixed-point scale.
pub open spec fn liability_of(odds: int, stake: int) -> int {
    mul_ratio_trunc(odds - DECIMAL_FRACTIONAL, stake)
}

/// The deposit owed for an order: a backer risks the stake itself, a layer
/// risks the liability.
pub open spec fn required_deposit(order_type: OrderType, odds: int, stake: int) -> int {
    match order_type {
        OrderType::Back => stake,
        OrderType::Lay => liability_of(odds, stake),
    }
}

/// Whether the deposit computation stays within `u128`.
pub open spec fn deposit_fits(order_type: OrderType, odds: int, stake: int) -> bool {
    match order_type {
        OrderType::Back => true,
        OrderType::Lay => (odds - DECIMAL_FRACTIONAL) * stake <= u128::MAX,
    }
}

/// `floor(atomics * amount / DECIMAL_FRACTIONAL)` with checked intermediate
/// arithmetic; fails exactly when the product overflows `u128`.
pub fn decimal_times_uint128_trunc(decimal_atomics: u128, amount: u128) -> (r: Result<
    u128,
    ContractError,
>)
    ensures
        r is Ok <==> decimal_atomics * amount <= u128::MAX,
        r matches Ok(v) ==> v == mul_ratio_trunc(decimal_atomics as int, amount as int),
        r matches Err(e) ==> e is CalculationError,
{
    match decimal_atomics.checked_mul(amount) {
        Some(product) => Ok(product / DECIMAL_FRACTIONAL),
        None => Err(ContractError::CalculationError {}),
    }
}

proof fn lemma_liability_zero(odds: int)
    ensures
        liability_of(odds, 0) == 0,
{
    assert((odds - DECIMAL_FRACTIONAL) * 0 == 0) by (nonlinear_arith);
    vstd::arithmetic::div_mod::lemma_div_of0(DECIMAL_FRACTIONAL as int);
}

/// Whether the resting order at index `j` may fill against the order at
/// index `new_idx`: opposite side, same event and outcome, exactly equal
/// odds, still resting on the book, and a different owner (so an order never
/// matches itself or its owner's counter-orders).
pub open spec fn eligible_counter(orders: Seq<Order>, new_idx: int, j: int) -> bool {
    let n = orders[new_idx];
    let o = orders[j];
    &&& 0 <= j < orders.len()
    &&& j != new_idx
    &&& o.event_id == n.event_id
    &&& o.outcome == n.outcome
    &&& o.order_type != n.order_type
    &&& o.odds == n.odds
    &&& (o.status is Open || o.status is PartiallyFilled)
    &&& o.owner@ != n.owner@
}

/// How matching may change one order: identity, side, event, outcome, odds,
/// initial stake and creation time are kept; the remaining stake only
/// decreases; and the status is recomputed from the remaining stake exactly
/// when a fill touched the order.
pub open spec fn order_filled_down(pre: Order, post: Order) -> bool {
    &&& post.id == pre.id
    &&& post.event_id == pre.event_id
    &&& post.owner == pre.owner
    &&& post.order_type == pre.order_type
    &&& post.outcome == pre.outcome
    &&& post.initial_backer_stake == pre.initial_backer_stake
    &&& post.odds == pre.odds
    &&& post.creation_time == pre.creation_time
    &&& post.remaining_backer_stake <= pre.remaining_backer_stake
    &&& (post.remaining_backer_stake == pre.remaining_backer_stake ==> post.status == pre.status)
    &&& (post.remaining_backer_stake < pre.remaining_backer_stake ==> post.status == (
    if post.remaining_backer_stake == 0 {
        OrderStatus::Filled
    } else {
        OrderStatus::PartiallyFilled
    }))
}

/// The counter-order `j` accounts for bet `b`: it was eligible, its remaining
/// stake dropped by exactly the bet's stake, and the bet's parties are the
/// two orders' owners, oriented by which side backs the outcome.
pub open spec fn fill_parties(
    pre_orders: Seq<Order>,
    post_orders: Seq<Order>,
    new_idx: int,
    b: MatchedBet,
    j: int,
) -> bool {
    let n = pre_orders[new_idx];
    &&& eligible_counter(pre_orders, new_idx, j)
    &&& b.backer_stake == pre_orders[j].remaining_backer_stake
        - post_orders[j].remaining_backer_stake
    &&& (if n.order_type is Back {
        b.backer_addr == n.owner && b.lay_addr == pre_orders[j].owner
    } else {
        b.backer_addr == pre_orders[j].owner && b.lay_addr == n.owner
    })
}

/// The total remaining stake that the scan removed from all orders but the
/// one at `except`.
pub open spec fn drained(pre_orders: Seq<Order>, post_orders: Seq<Order>, except: int) -> int
    decreases pre_orders.len(),
{
    if pre_orders.len() == 0 {
        0
    } else {
        drained(pre_orders.drop_last(), post_orders.drop_last(), except) + (
        if pre_orders.len() - 1 != except {
            pre_orders.last().remaining_backer_stake - post_orders.last().remaining_backer_stake
        } else {
            0
        })
    }
}

pub proof fn lemma_drained_same(s: Seq<Order>, except: int)
    ensures
        drained(s, s, except) == 0,
    decreases s.len(),
{
    if s.len() > 0 {
        lemma_drained_same(s.drop_last(), except);
    }
}

pub proof fn lemma_drained_update(
    pre_orders: Seq<Order>,
    post_orders: Seq<Order>,
    except: int,
    i: int,
    o: Order,
)
    requires
        pre_orders.len() == post_orders.len(),
        0 <= i < post_orders.len(),
    ensures
        i != except ==> drained(pre_orders, post_orders.update(i, o), except) == drained(
            pre_orders,
            post_orders,
            except,
        ) + post_orders[i].remaining_backer_stake - o.remaining_backer_stake,
        i == except ==> drained(pre_orders, post_orders.update(i, o), except) == drained(
            pre_orders,
            post_orders,
            except,
        ),
    decreases pre_orders.len(),
{
    let t = post_orders.update(i, o);
    if i == post_orders.len() - 1 {
        assert(t.drop_last() =~= post_orders.drop_last());
    } else {
        assert(t.drop_last() =~= post_orders.drop_last().update(i, o));
        assert(t.last() == post_orders.last());
        lemma_drained_update(pre_orders.drop_last(), post_orders.drop_last(), except, i, o);
    }
}

/// One newly created matched bet records one fill of the new order against
/// some eligible counter-order.
pub open spec fn bet_records_fill(
    pre_orders: Seq<Order>,
    post_orders: Seq<Order>,
    new_idx: int,
    b: MatchedBet,
    k: int,
    now: u64,
) -> bool {
    let n = pre_orders[new_idx];
    &&& b.id == k + 1
    &&& b.event_id == n.event_id
    &&& b.odds == n.odds
    &&& b.outcome_backed == n.outcome
    &&& b.creation_time == now
    &&& 1 <= b.backer_stake
    &&& b.layer_liability == liability_of(b.odds as int, b.backer_stake as int)
    &&& exists|j: int| #[trigger] fill_parties(pre_orders, post_orders, new_idx, b, j)
}

/// Everything the matching scan guarantees, relating the book and the bet
/// list before the scan (the new order already resting at `new_idx`) to the
/// state after it: non-candidates are untouched; candidates and the new
/// order only shrink, with statuses recomputed; an earlier candidate is
/// exhausted before any later one is touched (strict FIFO by order id); the
/// new order keeps a remainder only once every candidate is exhausted; each
/// new bet records one fill at the common odds; and the event's escrowed
/// total changes only by the deposit moved into pots, up to one atomic unit
/// of truncation per fill.
pub open spec fn match_post(
    pre_orders: Seq<Order>,
    pre_bets: Seq<MatchedBet>,
    post_orders: Seq<Order>,
    post_bets: Seq<MatchedBet>,
    new_idx: int,
    new_bet_ids: Seq<u64>,
    filled: bool,
    now: u64,
) -> bool {
    let eid = pre_orders[new_idx].event_id;
    let pre_total = crate::state::bets_pot_for(pre_bets, eid) + crate::state::orders_reserved_for(
        pre_orders,
        eid,
    );
    let post_total = crate::state::bets_pot_for(post_bets, eid)
        + crate::state::orders_reserved_for(post_orders, eid);
    &&& post_orders.len() == pre_orders.len()
    &&& forall|j: int|
        #![trigger post_orders[j]]
        0 <= j < pre_orders.len() && j != new_idx && !eligible_counter(pre_orders, new_idx, j)
            ==> post_orders[j] == pre_orders[j]
    &&& forall|j: int|
        #[trigger] eligible_counter(pre_orders, new_idx, j) ==> order_filled_down(
            pre_orders[j],
            post_orders[j],
        )
    &&& order_filled_down(pre_orders[new_idx], post_orders[new_idx])
    &&& forall|j: int, k: int|
        #![trigger eligible_counter(pre_orders, new_idx, j), eligible_counter(pre_orders, new_idx, k)]
        eligible_counter(pre_orders, new_idx, j) && eligible_counter(pre_orders, new_idx, k) && j
            < k && post_orders[k].remaining_backer_stake < pre_orders[k].remaining_backer_stake
            ==> post_orders[j].remaining_backer_stake == 0
    &&& (post_orders[new_idx].remaining_backer_stake > 0 ==> forall|j: int|
        #[trigger] eligible_counter(pre_orders, new_idx, j)
            ==> post_orders[j].remaining_backer_stake == 0)
    &&& post_bets.len() == pre_bets.len() + new_bet_ids.len()
    &&& forall|k: int|
        #![trigger post_bets[k]]
        0 <= k < pre_bets.len() ==> post_bets[k] == pre_bets[k]
    &&& forall|k: int|
        #![trigger post_bets[k]]
        pre_bets.len() <= k < post_bets.len() ==> bet_records_fill(
            pre_orders,
            post_orders,
            new_idx,
            post_bets[k],
            k,
            now,
        )
    &&& forall|k: int|
        #![trigger new_bet_ids[k]]
        0 <= k < new_bet_ids.len() ==> new_bet_ids[k] == pre_bets.len() + k + 1
    &&& filled == (post_orders[new_idx].remaining_backer_stake == 0)
    &&& drained(pre_orders, post_orders, new_idx) == pre_orders[new_idx].remaining_backer_stake
        - post_orders[new_idx].remaining_backer_stake
    &&& post_total <= pre_total
    &&& pre_total - post_total <= new_bet_ids.len()
}

/// What the matching scan reports back: the bets it created, and whether the
/// new order ended fully filled.
pub struct MatchResult {
    pub newly_matched_bet_ids: Vec<u64>,
    pub order_fully_filled: bool,
}

/// Initializes the exchange: the administrator is the sender unless one is
/// named, the denomination must be non-empty, and all tables start empty.
pub fn instantiate(sender: &String, msg: InstantiateMsg) -> (r: Result<Exchange, ContractError>)
    ensures
        r is Ok <==> msg.betting_denom@.len() > 0,
        r matches Ok(ex) ==> {
            &&& wf(ex)
            &&& ex.config.betting_denom == msg.betting_denom
            &&& (msg.admin matches Some(a) ==> ex.config.admin == a)
            &&& (msg.admin is None ==> ex.config.admin == *sender)
            &&& ex.events@.len() == 0
            &&& ex.orders@.len() == 0
            &&& ex.matched_bets@.len() == 0
            &&& forall|e: u64| event_obligations(ex, e) == 0
        },
        r matches Err(e) ==> e is InvalidDenom,
{
    if msg.betting_denom.as_str().is_empty() {
        return Err(
            ContractError::InvalidDenom {
                expected_denom: "any non-empty string".to_owned(),
                received_denom: msg.betting_denom,
            },
        );
    }
    let admin = match msg.admin {
        Some(a) => a,
        None => sender.clone(),
    };
    let ex = Exchange {
        config: Config { admin, betting_denom: msg.betting_denom },
        events: Vec::new(),
        orders: Vec::new(),
        matched_bets: Vec::new(),
    };
    Ok(ex)
}

/// Creates a betting market: rejects an empty description, defaults the
/// oracle to the creating sender, assigns the next sequential event id and
/// opens the event for betting. No funds move and no existing entry changes.
pub fn execute_create_event(
    ex: &mut Exchange,
    sender: &String,
    now: u64,
    description: String,
    oracle_addr: Option<String>,
    resolution_deadline: Option<u64>,
) -> (r: Result<u64, ContractError>)
    requires
        wf(*old(ex)),
        old(ex).events@.len() < u64::MAX,
    ensures
        wf(*final(ex)),
        r is Ok <==> description@.len() > 0,
        r matches Err(e) ==> e is InvalidDescription && *final(ex) == *old(ex),
        r matches Ok(event_id) ==> {
            &&& event_id == old(ex).events@.len() + 1
            &&& final(ex).events@.len() == old(ex).events@.len() + 1
            &&& final(ex).events@.drop_last() =~= old(ex).events@
            &&& ({
                let ev = final(ex).events@.last();
                &&& ev.id == event_id
                &&& ev.creator == *sender
                &&& ev.description == description
                &&& (oracle_addr matches Some(a) ==> ev.oracle == a)
                &&& (oracle_addr is None ==> ev.oracle == *sender)
                &&& ev.status is Open
                &&& ev.winning_outcome is None
                &&& ev.resolution_deadline == resolution_deadline
                &&& ev.creation_time == now
            })
            &&& final(ex).orders@ == old(ex).orders@
            &&& final(ex).matched_bets@ == old(ex).matched_bets@
            &&& final(ex).config == old(ex).config
            &&& event_obligations(*final(ex), event_id) == 0
            &&& forall|e: u64|
                1 <= e <= old(ex).events@.len() ==> event_obligations(*final(ex), e)
                    == event_obligations(*old(ex), e)
        },
{
    if description.as_str().is_empty() {
        return Err(ContractError::InvalidDescription {});
    }
    let oracle = match oracle_addr {
        Some(a) => a,
        None => sender.clone(),
    };
    let event_id = ex.events.len() as u64 + 1;
    let event = Event {
        id: event_id,
        creator: sender.clone(),
        description,
        oracle,
        status: EventStatus::Open,
        winning_outcome: None,
        resolution_deadline,
        creation_time: now,
    };
    ex.events.push(event);
    proof {
        assert forall|i: int| 0 <= i < ex.orders@.len() implies crate::state::valid_order(
            #[trigger] ex.orders@[i],
            i,
            ex.events@.len() as int,
        ) by {
            assert(crate::state::valid_order(ex.orders@[i], i, old(ex).events@.len() as int));
        }
        assert forall|i: int| 0 <= i < ex.orders@.len() implies crate::state::order_settled(
            #[trigger] ex.orders@[i],
            ex.events@,
        ) by {
            assert(crate::state::order_settled(ex.orders@[i], old(ex).events@));
        }
        assert forall|j: int| 0 <= j < ex.orders@.len() implies crate::state::order_contrib(
            #[trigger] ex.orders@[j],
            event_id,
        ) == 0 by {
            assert(crate::state::valid_order(ex.orders@[j], j, old(ex).events@.len() as int));
        }
        lemma_orders_reserved_zero(ex.orders@, event_id);
        assert forall|j: int| 0 <= j < ex.matched_bets@.len() implies crate::state::bet_contrib(
            #[trigger] ex.matched_bets@[j],
            event_id,
        ) == 0 by {
            assert(crate::state::valid_bet(
                ex.matched_bets@[j],
                j,
                old(ex).events@.len() as int,
            ));
        }
        lemma_bets_pot_zero(ex.matched_bets@, event_id);
        assert(ex.events@.drop_last() =~= old(ex).events@);
    }
    Ok(event_id)
}

/// Cancels a resting order: only its owner may cancel, a filled order cannot
/// be cancelled, and cancelling an already-cancelled order succeeds without a
/// second refund or any state change. Otherwise the remaining deposit is
/// refunded and the order becomes terminally `Cancelled`.
pub fn execute_cancel_order(ex: &mut Exchange, sender: &String, order_id: u64) -> (r: Result<
    Vec<Payment>,
    ContractError,
>)
    requires
        wf(*old(ex)),
    ensures
        wf(*final(ex)),
        r is Err ==> *final(ex) == *old(ex),
        !(1 <= order_id <= old(ex).orders@.len()) ==> (r matches Err(
            ContractError::OrderNotFound { order_id: oid },
        ) && oid == order_id),
        1 <= order_id <= old(ex).orders@.len() && old(ex).orders@[order_id - 1].owner@ != sender@
            ==> r matches Err(ContractError::Unauthorized {  }),
        1 <= order_id <= old(ex).orders@.len() && old(ex).orders@[order_id - 1].owner@ == sender@
            && old(ex).orders@[order_id - 1].status is Filled ==> (r matches Err(
            ContractError::CannotCancelFilledOrder { order_id: oid },
        ) && oid == order_id),
        1 <= order_id <= old(ex).orders@.len() && old(ex).orders@[order_id - 1].owner@ == sender@
            && old(ex).orders@[order_id - 1].status is Cancelled ==> (r matches Ok(ps) && ps@.len()
            == 0 && *final(ex) == *old(ex)),
        1 <= order_id <= old(ex).orders@.len() && old(ex).orders@[order_id - 1].owner@ == sender@
            && (old(ex).orders@[order_id - 1].status is Open || old(ex).orders@[order_id
            - 1].status is PartiallyFilled) ==> (r matches Ok(ps) && ({
            let o = old(ex).orders@[order_id - 1];
            let refund = order_reserved(o);
            &&& final(ex).orders@ == old(ex).orders@.update(
                order_id - 1,
                Order { status: OrderStatus::Cancelled, ..o },
            )
            &&& final(ex).events@ == old(ex).events@
            &&& final(ex).matched_bets@ == old(ex).matched_bets@
            &&& final(ex).config == old(ex).config
            &&& payments_total(ps@) == refund
            &&& (refund > 0 ==> ps@.len() == 1 && ps@[0].to_address == o.owner && ps@[0].denom
                == old(ex).config.betting_denom && ps@[0].amount == refund)
            &&& (refund == 0 ==> ps@.len() == 0)
            &&& event_obligations(*final(ex), o.event_id) == event_obligations(
                *old(ex),
                o.event_id,
            ) - refund
            &&& forall|e: u64|
                e != o.event_id ==> event_obligations(*final(ex), e) == event_obligations(
                    *old(ex),
                    e,
                )
        })),
{
    if order_id == 0 || order_id > ex.orders.len() as u64 {
        return Err(ContractError::OrderNotFound { order_id });
    }
    let idx: usize = (order_id - 1) as usize;
    if !(ex.orders[idx].owner == *sender) {
        return Err(ContractError::Unauthorized {});
    }
    match ex.orders[idx].status {
        OrderStatus::Filled => {
            return Err(ContractError::CannotCancelFilledOrder { order_id });
        },
        OrderStatus::Cancelled => {
            return Ok(Vec::new());
        },
        _ => {},
    }
    let order_type = ex.orders[idx].order_type;
    let odds = ex.orders[idx].odds;
    let remaining = ex.orders[idx].remaining_backer_stake;
    let amount_to_refund: u128 = match order_type {
        OrderType::Back => remaining,
        OrderType::Lay => {
            proof {
                lemma_mul_le_mono_right(
                    odds - DECIMAL_FRACTIONAL,
                    remaining as int,
                    ex.orders@[idx as int].initial_backer_stake as int,
                );
            }
            match decimal_times_uint128_trunc(odds - DECIMAL_FRACTIONAL, remaining) {
                Ok(v) => v,
                Err(e) => {
                    proof {
                        assert(false);
                    }
                    return Err(e);
                },
            }
        },
    };
    let mut payments: Vec<Payment> = Vec::new();
    if remaining > 0 && amount_to_refund > 0 {
        payments.push(
            Payment {
                to_address: ex.orders[idx].owner.clone(),
                denom: ex.config.betting_denom.clone(),
                amount: amount_to_refund,
            },
        );
    }
    let ghost pre_order = ex.orders@[idx as int];
    ex.orders[idx].status = OrderStatus::Cancelled;
    proof {
        let eid = pre_order.event_id;
        assert(ex.orders@ =~= old(ex).orders@.update(
            idx as int,
            Order { status: OrderStatus::Cancelled, ..pre_order },
        ));
        lemma_orders_reserved_update(
            old(ex).orders@,
            idx as int,
            ex.orders@[idx as int],
            eid,
        );
        if payments@.len() == 1 {
            assert(payments@ =~= Seq::<Payment>::empty().push(payments@[0]));
            crate::state::lemma_payments_total_push(Seq::<Payment>::empty(), payments@[0]);
        }
        assert forall|e: u64| e != eid implies event_obligations(*ex, e) == event_obligations(
            *old(ex),
            e,
        ) by {
            lemma_orders_reserved_update(
                old(ex).orders@,
                idx as int,
                ex.orders@[idx as int],
                e,
            );
        }
    }
    Ok(payments)
}

/// Resolves an event and settles it in the same atomic step: only the
/// designated oracle may resolve, and only once. Every matched bet of the
/// event pays its whole pot to the winning side exactly once; every
/// still-resting order of the event is refunded its remaining deposit and
/// finalized as `Cancelled`; the payments together return exactly what the
/// event still held in escrow, leaving nothing owed on its account.
#[verifier::loop_isolation(false)]
pub fn execute_resolve_event(
    ex: &mut Exchange,
    sender: &String,
    event_id: u64,
    winning_outcome: Outcome,
) -> (r: Result<Vec<Payment>, ContractError>)
    requires
        wf(*old(ex)),
    ensures
        wf(*final(ex)),
        r is Err ==> *final(ex) == *old(ex),
        !(1 <= event_id <= old(ex).events@.len()) ==> (r matches Err(
            ContractError::EventNotFound { event_id: e },
        ) && e == event_id),
        1 <= event_id <= old(ex).events@.len() && old(ex).events@[event_id - 1].oracle@ != sender@
            ==> (r matches Err(ContractError::OracleMismatch { event_id: e }) && e == event_id),
        1 <= event_id <= old(ex).events@.len() && old(ex).events@[event_id - 1].oracle@ == sender@
            && old(ex).events@[event_id - 1].status is Resolved ==> (r matches Err(
            ContractError::EventAlreadyResolved { event_id: e },
        ) && e == event_id),
        1 <= event_id <= old(ex).events@.len() && old(ex).events@[event_id - 1].oracle@ == sender@
            && !(old(ex).events@[event_id - 1].status is Resolved) ==> ((r is Ok
            <==> crate::state::all_event_pots_fit(old(ex).matched_bets@, event_id)) && (r is Err
            ==> r matches Err(ContractError::CalculationError {  }))),
        r matches Ok(ps) ==> ({
            let pre = *old(ex);
            let ev = pre.events@[event_id - 1];
            let denom = pre.config.betting_denom;
            &&& final(ex).config == pre.config
            &&& final(ex).matched_bets@ == pre.matched_bets@
            &&& final(ex).events@ == pre.events@.update(
                event_id - 1,
                Event {
                    status: EventStatus::Resolved,
                    winning_outcome: Some(winning_outcome),
                    ..ev
                },
            )
            &&& final(ex).orders@.len() == pre.orders@.len()
            &&& forall|l: int|
                0 <= l < pre.orders@.len() ==> processed_order(
                    #[trigger] pre.orders@[l],
                    final(ex).orders@[l],
                    event_id,
                )
            &&& forall|l: int|
                0 <= l < final(ex).orders@.len()
                    && (#[trigger] final(ex).orders@[l]).event_id == event_id ==> (
                final(ex).orders@[l].status is Filled
                    || final(ex).orders@[l].status is Cancelled)
            &&& ps@ == payout_seq(pre.matched_bets@, event_id, winning_outcome, denom)
                + refund_seq(pre.orders@, event_id, denom)
            &&& payments_total(ps@) == event_obligations(pre, event_id)
            &&& event_obligations(*final(ex), event_id) == 0
            &&& forall|e: u64|
                e != event_id ==> event_obligations(*final(ex), e) == event_obligations(pre, e)
        }),
{
    if event_id == 0 || event_id > ex.events.len() as u64 {
        return Err(ContractError::EventNotFound { event_id });
    }
    let eidx: usize = (event_id - 1) as usize;
    if !(ex.events[eidx].oracle == *sender) {
        return Err(ContractError::OracleMismatch { event_id });
    }
    match ex.events[eidx].status {
        EventStatus::Resolved => {
            return Err(ContractError::EventAlreadyResolved { event_id });
        },
        _ => {},
    }
    let mut payments: Vec<Payment> = Vec::new();
    let n_bets = ex.matched_bets.len();
    let mut k: usize = 0;
    proof {
        assert(ex.matched_bets@.take(0) =~= Seq::<crate::state::MatchedBet>::empty());
    }
    while k < n_bets
        invariant
            k <= n_bets,
            payments@ == payout_seq(
                ex.matched_bets@.take(k as int),
                event_id,
                winning_outcome,
                ex.config.betting_denom,
            ),
            forall|l: int|
                0 <= l < k && (#[trigger] ex.matched_bets@[l]).event_id == event_id ==> bet_pot(
                    ex.matched_bets@[l],
                ) <= u128::MAX,
        decreases n_bets - k,
    {
        proof {
            lemma_payout_seq_take_step(
                ex.matched_bets@,
                k as int,
                event_id,
                winning_outcome,
                ex.config.betting_denom,
            );
        }
        if ex.matched_bets[k].event_id == event_id {
            let pot = match ex.matched_bets[k].backer_stake.checked_add(
                ex.matched_bets[k].layer_liability,
            ) {
                Some(p) => p,
                None => {
                    return Err(ContractError::CalculationError {});
                },
            };
            let winner = if ex.matched_bets[k].outcome_backed == winning_outcome {
                ex.matched_bets[k].backer_addr.clone()
            } else {
                ex.matched_bets[k].lay_addr.clone()
            };
            payments.push(
                Payment {
                    to_address: winner,
                    denom: ex.config.betting_denom.clone(),
                    amount: pot,
                },
            );
        }
        k += 1;
    }
    proof {
        assert(ex.matched_bets@.take(n_bets as int) =~= ex.matched_bets@);
    }
    let ghost payout_part = payments@;
    ex.events[eidx].status = EventStatus::Resolved;
    ex.events[eidx].winning_outcome = Some(winning_outcome);
    proof {
        assert(ex.events@ =~= old(ex).events@.update(
            eidx as int,
            Event {
                status: EventStatus::Resolved,
                winning_outcome: Some(winning_outcome),
                ..old(ex).events@[eidx as int]
            },
        ));
    }
    let ghost events_mid = ex.events@;
    let n_orders = ex.orders.len();
    let mut j: usize = 0;
    proof {
        assert(old(ex).orders@.take(0) =~= Seq::<Order>::empty());
        assert(payments@ =~= payout_part + refund_seq(
            old(ex).orders@.take(0),
            event_id,
            ex.config.betting_denom,
        ));
    }
    while j < n_orders
        invariant
            j <= n_orders,
            ex.orders@.len() == n_orders,
            ex.events@ == events_mid,
            ex.matched_bets@ == old(ex).matched_bets@,
            ex.config == old(ex).config,
            forall|l: int| j <= l < n_orders ==> ex.orders@[l] == old(ex).orders@[l],
            forall|l: int|
                0 <= l < j ==> processed_order(
                    #[trigger] old(ex).orders@[l],
                    ex.orders@[l],
                    event_id,
                ),
            payments@ == payout_part + refund_seq(
                old(ex).orders@.take(j as int),
                event_id,
                ex.config.betting_denom,
            ),
        decreases n_orders - j,
    {
        proof {
            lemma_refund_seq_take_step(
                old(ex).orders@,
                j as int,
                event_id,
                ex.config.betting_denom,
            );
        }
        let status = ex.orders[j].status;
        let resting = match status {
            OrderStatus::Open => true,
            OrderStatus::PartiallyFilled => true,
            _ => false,
        };
        if ex.orders[j].event_id == event_id && resting {
            let order_type = ex.orders[j].order_type;
            let odds = ex.orders[j].odds;
            let remaining = ex.orders[j].remaining_backer_stake;
            let amount_to_refund: u128 = match order_type {
                OrderType::Back => remaining,
                OrderType::Lay => {
                    proof {
                        lemma_mul_le_mono_right(
                            odds - DECIMAL_FRACTIONAL,
                            remaining as int,
                            ex.orders@[j as int].initial_backer_stake as int,
                        );
                    }
                    match decimal_times_uint128_trunc(odds - DECIMAL_FRACTIONAL, remaining) {
                        Ok(v) => v,
                        Err(e) => {
                            proof {
                                assert(false);
                            }
                            return Err(e);
                        },
                    }
                },
            };
            if remaining > 0 && amount_to_refund > 0 {
                payments.push(
                    Payment {
                        to_address: ex.orders[j].owner.clone(),
                        denom: ex.config.betting_denom.clone(),
                        amount: amount_to_refund,
                    },
                );
            }
            ex.orders[j].status = OrderStatus::Cancelled;
        }
        proof {
            assert(payments@ =~= payout_part + refund_seq(
                old(ex).orders@.take(j as int + 1),
                event_id,
                ex.config.betting_denom,
            ));
        }
        j += 1;
    }
    proof {
        assert(old(ex).orders@.take(n_orders as int) =~= old(ex).orders@);
        assert(crate::state::valid_event(old(ex).events@[eidx as int], eidx as int));
        assert(old(ex).events@[eidx as int].status is Open);
        assert forall|i: int| 0 <= i < ex.events@.len() implies crate::state::valid_event(
            #[trigger] ex.events@[i],
            i,
        ) by {
            assert(crate::state::valid_event(old(ex).events@[i], i));
        }
        assert forall|l: int| 0 <= l < ex.orders@.len() implies crate::state::valid_order(
            #[trigger] ex.orders@[l],
            l,
            ex.events@.len() as int,
        ) by {
            assert(processed_order(old(ex).orders@[l], ex.orders@[l], event_id));
            assert(crate::state::valid_order(old(ex).orders@[l], l, old(ex).events@.len() as int));
        }
        assert forall|l: int| 0 <= l < ex.orders@.len() implies crate::state::order_settled(
            #[trigger] ex.orders@[l],
            ex.events@,
        ) by {
            assert(processed_order(old(ex).orders@[l], ex.orders@[l], event_id));
            assert(crate::state::order_settled(old(ex).orders@[l], old(ex).events@));
            assert(crate::state::valid_order(old(ex).orders@[l], l, old(ex).events@.len() as int));
        }
        assert forall|l: int| 0 <= l < ex.matched_bets@.len() implies crate::state::valid_bet(
            #[trigger] ex.matched_bets@[l],
            l,
            ex.events@.len() as int,
        ) by {
            assert(crate::state::valid_bet(
                old(ex).matched_bets@[l],
                l,
                old(ex).events@.len() as int,
            ));
        }
        assert forall|l: int| 0 <= l < old(ex).orders@.len() implies 0 <= order_contrib(
            #[trigger] old(ex).orders@[l],
            event_id,
        ) <= u128::MAX by {
            lemma_order_reserved_bounds(old(ex).orders@[l], l, old(ex).events@.len() as int);
        }
        lemma_refund_seq_total(old(ex).orders@, event_id, ex.config.betting_denom);
        lemma_payout_seq_total(
            old(ex).matched_bets@,
            event_id,
            winning_outcome,
            ex.config.betting_denom,
        );
        lemma_payments_total_concat(
            payout_part,
            refund_seq(old(ex).orders@, event_id, ex.config.betting_denom),
        );
        assert forall|l: int| 0 <= l < ex.orders@.len() implies order_contrib(
            #[trigger] ex.orders@[l],
            event_id,
        ) == 0 by {
            assert(processed_order(old(ex).orders@[l], ex.orders@[l], event_id));
        }
        lemma_orders_reserved_zero(ex.orders@, event_id);
        assert forall|e: u64| e != event_id implies event_obligations(*ex, e)
            == event_obligations(*old(ex), e) by {
            assert forall|l: int| 0 <= l < ex.orders@.len() implies order_contrib(
                #[trigger] old(ex).orders@[l],
                e,
            ) == order_contrib(ex.orders@[l], e) by {
                assert(processed_order(old(ex).orders@[l], ex.orders@[l], event_id));
            }
            lemma_orders_reserved_pointwise(old(ex).orders@, ex.orders@, e);
        }
    }
    Ok(payments)
}

/// Scans the book for counter-orders eligible against the freshly persisted
/// order and fills them in strict FIFO order of order id, decrementing both
/// sides, recomputing their statuses, and appending one matched bet per fill
/// with the layer's liability derived by the escrow formula. Never fails:
/// every intermediate amount is bounded by deposits already checked in.
#[verifier::loop_isolation(false)]
#[verifier::rlimit(100)]
pub fn try_match_order(ex: &mut Exchange, now: u64, new_order_id: u64) -> (r: Result<
    MatchResult,
    ContractError,
>)
    requires
        wf(*old(ex)),
        1 <= new_order_id <= old(ex).orders@.len(),
        !(old(ex).orders@[new_order_id - 1].status is Cancelled),
        old(ex).matched_bets@.len() + old(ex).orders@.len() <= u64::MAX,
    ensures
        wf(*final(ex)),
        r is Ok,
        r matches Ok(mr) ==> {
            &&& final(ex).config == old(ex).config
            &&& final(ex).events@ == old(ex).events@
            &&& match_post(
                old(ex).orders@,
                old(ex).matched_bets@,
                final(ex).orders@,
                final(ex).matched_bets@,
                new_order_id - 1,
                mr.newly_matched_bet_ids@,
                mr.order_fully_filled,
                now,
            )
        },
{
    let len = ex.orders.len();
    let new_idx: usize = (new_order_id - 1) as usize;
    let mut newly_matched_bet_ids: Vec<u64> = Vec::new();
    proof {
        assert(new_order_id - 1 < len as u64);
    }
    let ghost pre = old(ex).orders@;
    let ghost pre_bets = old(ex).matched_bets@;
    let ghost eid = pre[new_idx as int].event_id;
    let ghost pre_total = bets_pot_for(pre_bets, eid) + orders_reserved_for(pre, eid);
    let ghost n_events = old(ex).events@.len() as int;
    let is_filled = match ex.orders[new_idx].status {
        OrderStatus::Filled => true,
        _ => false,
    };
    if is_filled || ex.orders[new_idx].remaining_backer_stake == 0 {
        proof {
            assert(valid_order(pre[new_idx as int], new_idx as int, n_events));
            assert(pre[new_idx as int].remaining_backer_stake == 0);
            lemma_drained_same(pre, new_idx as int);
        }
        return Ok(MatchResult { newly_matched_bet_ids, order_fully_filled: true });
    }
    let n_event_id = ex.orders[new_idx].event_id;
    let n_outcome = ex.orders[new_idx].outcome;
    let n_type = ex.orders[new_idx].order_type;
    let n_odds = ex.orders[new_idx].odds;
    let n_owner = ex.orders[new_idx].owner.clone();
    let mut new_rem = ex.orders[new_idx].remaining_backer_stake;
    let mut i: usize = 0;
    proof {
        lemma_drained_same(pre, new_idx as int);
    }
    while i < len && new_rem > 0
        invariant
            i <= len,
            len == ex.orders@.len(),
            ex.config == old(ex).config,
            ex.events@ == old(ex).events@,
            new_rem == ex.orders@[new_idx as int].remaining_backer_stake,
            drained(pre, ex.orders@, new_idx as int) == pre[new_idx as int].remaining_backer_stake
                - new_rem,
            order_filled_down(pre[new_idx as int], ex.orders@[new_idx as int]),
            forall|l: int|
                #![trigger ex.orders@[l]]
                0 <= l < len && l != new_idx && (l >= i || !eligible_counter(
                    pre,
                    new_idx as int,
                    l,
                )) ==> ex.orders@[l] == pre[l],
            forall|l: int|
                #[trigger] eligible_counter(pre, new_idx as int, l) && l < i
                    ==> order_filled_down(pre[l], ex.orders@[l]),
            new_rem > 0 ==> (forall|l: int|
                #[trigger] eligible_counter(pre, new_idx as int, l) && l < i
                    ==> ex.orders@[l].remaining_backer_stake == 0),
            forall|j: int, k: int|
                #![trigger eligible_counter(pre, new_idx as int, j), eligible_counter(pre, new_idx as int, k)]
                eligible_counter(pre, new_idx as int, j) && eligible_counter(
                    pre,
                    new_idx as int,
                    k,
                ) && j < k && k < i && ex.orders@[k].remaining_backer_stake
                    < pre[k].remaining_backer_stake ==> ex.orders@[j].remaining_backer_stake == 0,
            ex.matched_bets@.len() == pre_bets.len() + newly_matched_bet_ids@.len(),
            ex.matched_bets@.len() <= pre_bets.len() + i,
            forall|k: int|
                #![trigger ex.matched_bets@[k]]
                0 <= k < pre_bets.len() ==> ex.matched_bets@[k] == pre_bets[k],
            forall|k: int|
                #![trigger ex.matched_bets@[k]]
                pre_bets.len() <= k < ex.matched_bets@.len() ==> bet_records_fill(
                    pre,
                    ex.orders@,
                    new_idx as int,
                    ex.matched_bets@[k],
                    k,
                    now,
                ),
            forall|k: int|
                #![trigger newly_matched_bet_ids@[k]]
                0 <= k < newly_matched_bet_ids@.len() ==> newly_matched_bet_ids@[k] == pre_bets.len()
                    + k + 1,
            bets_pot_for(ex.matched_bets@, eid) + orders_reserved_for(ex.orders@, eid)
                <= pre_total,
            pre_total - (bets_pot_for(ex.matched_bets@, eid) + orders_reserved_for(ex.orders@, eid))
                <= newly_matched_bet_ids@.len(),
            forall|l: int|
                0 <= l < len ==> valid_order(#[trigger] ex.orders@[l], l, n_events),
            forall|l: int|
                0 <= l < len ==> order_settled(#[trigger] ex.orders@[l], ex.events@),
            forall|l: int|
                0 <= l < ex.matched_bets@.len() ==> valid_bet(
                    #[trigger] ex.matched_bets@[l],
                    l,
                    n_events,
                ),
        decreases len - i,
    {
        let c_resting = match ex.orders[i].status {
            OrderStatus::Open => true,
            OrderStatus::PartiallyFilled => true,
            _ => false,
        };
        let is_candidate = i != new_idx && ex.orders[i].event_id == n_event_id
            && ex.orders[i].outcome == n_outcome && !(ex.orders[i].order_type == n_type)
            && ex.orders[i].odds == n_odds && c_resting && !(ex.orders[i].owner == n_owner);
        proof {
            assert(is_candidate == eligible_counter(pre, new_idx as int, i as int));
        }
        if is_candidate {
            let c_rem = ex.orders[i].remaining_backer_stake;
            let m = if new_rem < c_rem {
                new_rem
            } else {
                c_rem
            };
            if m > 0 {
                let ghost s0 = ex.orders@;
                let ghost b0 = ex.matched_bets@;
                let ghost ids0 = newly_matched_bet_ids@;
                let new_rem2 = new_rem - m;
                let c_rem2 = c_rem - m;
                ex.orders[i].remaining_backer_stake = c_rem2;
                ex.orders[i].status = if c_rem2 == 0 {
                    OrderStatus::Filled
                } else {
                    OrderStatus::PartiallyFilled
                };
                ex.orders[new_idx].remaining_backer_stake = new_rem2;
                ex.orders[new_idx].status = if new_rem2 == 0 {
                    OrderStatus::Filled
                } else {
                    OrderStatus::PartiallyFilled
                };
                proof {
                    match n_type {
                        OrderType::Lay => {
                            lemma_mul_le_mono_right(
                                n_odds - DECIMAL_FRACTIONAL,
                                m as int,
                                s0[new_idx as int].initial_backer_stake as int,
                            );
                        },
                        OrderType::Back => {
                            lemma_mul_le_mono_right(
                                n_odds - DECIMAL_FRACTIONAL,
                                m as int,
                                s0[i as int].initial_backer_stake as int,
                            );
                        },
                    }
                }
                let layer_liability = match decimal_times_uint128_trunc(
                    n_odds - DECIMAL_FRACTIONAL,
                    m,
                ) {
                    Ok(v) => v,
                    Err(e) => {
                        proof {
                            assert(false);
                        }
                        return Err(e);
                    },
                };
                let bet_id = ex.matched_bets.len() as u64 + 1;
                let (backer_addr, lay_addr) = match n_type {
                    OrderType::Back => (n_owner.clone(), ex.orders[i].owner.clone()),
                    OrderType::Lay => (ex.orders[i].owner.clone(), n_owner.clone()),
                };
                let bet = MatchedBet {
                    id: bet_id,
                    event_id: n_event_id,
                    backer_addr,
                    lay_addr,
                    backer_stake: m,
                    layer_liability,
                    outcome_backed: n_outcome,
                    odds: n_odds,
                    creation_time: now,
                };
                ex.matched_bets.push(bet);
                newly_matched_bet_ids.push(bet_id);
                new_rem = new_rem2;
                proof {
                    let ghost c2 = ex.orders@[i as int];
                    let ghost n2 = ex.orders@[new_idx as int];
                    assert(ex.orders@ =~= s0.update(i as int, c2).update(new_idx as int, n2));
                    lemma_drained_update(pre, s0, new_idx as int, i as int, c2);
                    lemma_drained_update(
                        pre,
                        s0.update(i as int, c2),
                        new_idx as int,
                        new_idx as int,
                        n2,
                    );
                    lemma_orders_reserved_update(s0, i as int, c2, eid);
                    lemma_orders_reserved_update(s0.update(i as int, c2), new_idx as int, n2, eid);
                    lemma_bets_pot_push(b0, bet, eid);
                    lemma_liability_zero(n_odds as int);
                    match n_type {
                        OrderType::Back => {
                            lemma_liability_split_bounds(n_odds as int, c_rem as int, m as int);
                        },
                        OrderType::Lay => {
                            lemma_liability_split_bounds(
                                n_odds as int,
                                (new_rem2 + m) as int,
                                m as int,
                            );
                        },
                    }
                    assert(fill_parties(pre, ex.orders@, new_idx as int, bet, i as int));
                    assert forall|k: int|
                        pre_bets.len() <= k < ex.matched_bets@.len() implies bet_records_fill(
                        pre,
                        ex.orders@,
                        new_idx as int,
                        ex.matched_bets@[k],
                        k,
                        now,
                    ) by {
                        if k < b0.len() {
                            assert(bet_records_fill(pre, s0, new_idx as int, b0[k], k, now));
                            let j0 = choose|j: int|
                                #[trigger] fill_parties(pre, s0, new_idx as int, b0[k], j);
                            assert(s0[i as int] == pre[i as int]);
                            assert(j0 != i && j0 != new_idx);
                            assert(fill_parties(pre, ex.orders@, new_idx as int, b0[k], j0));
                        }
                    }
                }
            }
        }
        i += 1;
    }
    let order_fully_filled = new_rem == 0;
    proof {
        assert forall|j: int|
            #[trigger] eligible_counter(pre, new_idx as int, j) implies order_filled_down(
            pre[j],
            ex.orders@[j],
        ) by {
            if j >= i {
                assert(ex.orders@[j] == pre[j]);
            }
        }
    }
    Ok(MatchResult { newly_matched_bet_ids, order_fully_filled })
}

/// The freshly persisted order that placement creates, before matching runs.
pub open spec fn new_order_spec(
    id: u64,
    event_id: u64,
    owner: String,
    order_type: OrderType,
    outcome: Outcome,
    stake: u128,
    odds: u128,
    now: u64,
) -> Order {
    Order {
        id,
        event_id,
        owner,
        order_type,
        outcome,
        initial_backer_stake: stake,
        remaining_backer_stake: stake,
        odds,
        creation_time: now,
        status: OrderStatus::Open,
    }
}

/// When the exchange accepts an order: a positive stake, odds above one, an
/// open event whose deadline has not passed, and exactly one coin attachment
/// of the configured denomination equal to the required deposit, which must
/// be representable.
pub open spec fn place_accepted(
    pre: Exchange,
    funds: Seq<Coin>,
    now: u64,
    event_id: u64,
    order_type: OrderType,
    stake: u128,
    odds: u128,
) -> bool {
    &&& stake >= 1
    &&& odds > DECIMAL_FRACTIONAL
    &&& 1 <= event_id <= pre.events@.len()
    &&& pre.events@[event_id - 1].status is Open
    &&& (pre.events@[event_id - 1].resolution_deadline matches Some(d) ==> now <= d)
    &&& funds.len() == 1
    &&& funds[0].denom@ == pre.config.betting_denom@
    &&& deposit_fits(order_type, odds as int, stake as int)
    &&& funds[0].amount == required_deposit(order_type, odds as int, stake as int)
}

/// What placement reports back: the new order's id, the bets created by
/// matching, and whether the order ended fully filled.
pub struct PlaceOrderResponse {
    pub order_id: u64,
    pub newly_matched_bet_ids: Vec<u64>,
    pub order_fully_filled: bool,
}

/// Validates a new order against the event's state and the funds sent,
/// requires exactly the escrow deposit, persists the order, and matches it
/// FIFO against eligible counter-orders. On any failure nothing changes; on
/// success the event's escrowed total grows by exactly the deposit, up to one
/// atomic unit of truncation per fill, and no other event is touched.
pub fn execute_place_order(
    ex: &mut Exchange,
    sender: &String,
    funds: &Vec<Coin>,
    now: u64,
    event_id: u64,
    order_type: OrderType,
    outcome: Outcome,
    stake: u128,
    odds: u128,
) -> (r: Result<PlaceOrderResponse, ContractError>)
    requires
        wf(*old(ex)),
        old(ex).orders@.len() < u64::MAX,
        old(ex).matched_bets@.len() + old(ex).orders@.len() + 1 <= u64::MAX,
    ensures
        wf(*final(ex)),
        r is Err ==> *final(ex) == *old(ex),
        r is Ok <==> place_accepted(*old(ex), funds@, now, event_id, order_type, stake, odds),
        stake == 0 ==> r matches Err(ContractError::InvalidStakeAmount {  }),
        stake >= 1 && odds <= DECIMAL_FRACTIONAL ==> r matches Err(ContractError::InvalidOdds {  }),
        stake >= 1 && odds > DECIMAL_FRACTIONAL && !(1 <= event_id <= old(ex).events@.len()) ==> (
        r matches Err(ContractError::EventNotFound { event_id: e }) && e == event_id),
        stake >= 1 && odds > DECIMAL_FRACTIONAL && 1 <= event_id <= old(ex).events@.len() && !(old(
            ex,
        ).events@[event_id - 1].status is Open) ==> (r matches Err(
            ContractError::EventNotOpen { event_id: e },
        ) && e == event_id),
        stake >= 1 && odds > DECIMAL_FRACTIONAL && 1 <= event_id <= old(ex).events@.len() && old(
            ex,
        ).events@[event_id - 1].status is Open && (old(ex).events@[event_id
            - 1].resolution_deadline matches Some(d) && now > d) ==> r matches Err(
            ContractError::DeadlinePassed {  },
        ),
        stake >= 1 && odds > DECIMAL_FRACTIONAL && 1 <= event_id <= old(ex).events@.len() && old(
            ex,
        ).events@[event_id - 1].status is Open && (old(ex).events@[event_id
            - 1].resolution_deadline matches Some(d) ==> now <= d) ==> {
            &&& (funds@.len() == 0 ==> r matches Err(ContractError::NoFundsSent {  }))
            &&& (funds@.len() > 1 ==> r matches Err(ContractError::MultipleCoinsSent {  }))
            &&& (funds@.len() == 1 && funds@[0].denom@ != old(ex).config.betting_denom@ ==> (
            r matches Err(ContractError::InvalidDenom { expected_denom: ed, received_denom: rd })
                && ed@ == old(ex).config.betting_denom@ && rd@ == funds@[0].denom@))
            &&& (funds@.len() == 1 && funds@[0].denom@ == old(ex).config.betting_denom@
                && !deposit_fits(order_type, odds as int, stake as int) ==> r matches Err(
                ContractError::CalculationError {  },
            ))
            &&& (funds@.len() == 1 && funds@[0].denom@ == old(ex).config.betting_denom@
                && deposit_fits(order_type, odds as int, stake as int) && funds@[0].amount
                != required_deposit(order_type, odds as int, stake as int) ==> (r matches Err(
                ContractError::InsufficientFundsSent { required: rq, sent: st },
            ) && rq == required_deposit(order_type, odds as int, stake as int) && st
                == funds@[0].amount))
        },
        r matches Ok(res) ==> ({
            let pre = *old(ex);
            let new_idx = pre.orders@.len() as int;
            let dep = required_deposit(order_type, odds as int, stake as int);
            let placed = pre.orders@.push(
                new_order_spec(
                    (new_idx + 1) as u64,
                    event_id,
                    *sender,
                    order_type,
                    outcome,
                    stake,
                    odds,
                    now,
                ),
            );
            &&& res.order_id == new_idx + 1
            &&& final(ex).events@ == pre.events@
            &&& final(ex).config == pre.config
            &&& final(ex).orders@.len() == new_idx + 1
            &&& match_post(
                placed,
                pre.matched_bets@,
                final(ex).orders@,
                final(ex).matched_bets@,
                new_idx,
                res.newly_matched_bet_ids@,
                res.order_fully_filled,
                now,
            )
            &&& event_obligations(*final(ex), event_id) <= event_obligations(pre, event_id) + dep
            &&& event_obligations(pre, event_id) + dep - event_obligations(*final(ex), event_id)
                <= res.newly_matched_bet_ids@.len()
            &&& forall|e: u64|
                e != event_id ==> event_obligations(*final(ex), e) == event_obligations(pre, e)
        }),
{
    if stake == 0 {
        return Err(ContractError::InvalidStakeAmount {});
    }
    if odds <= DECIMAL_FRACTIONAL {
        return Err(ContractError::InvalidOdds {});
    }
    if event_id == 0 || event_id > ex.events.len() as u64 {
        return Err(ContractError::EventNotFound { event_id });
    }
    let eidx: usize = (event_id - 1) as usize;
    let is_open = match ex.events[eidx].status {
        EventStatus::Open => true,
        _ => false,
    };
    if !is_open {
        return Err(ContractError::EventNotOpen { event_id });
    }
    match ex.events[eidx].resolution_deadline {
        Some(deadline) => {
            if now > deadline {
                return Err(ContractError::DeadlinePassed {});
            }
        },
        None => {},
    }
    if funds.len() == 0 {
        return Err(ContractError::NoFundsSent {});
    }
    if funds.len() > 1 {
        return Err(ContractError::MultipleCoinsSent {});
    }
    if !(funds[0].denom == ex.config.betting_denom) {
        return Err(
            ContractError::InvalidDenom {
                expected_denom: ex.config.betting_denom.clone(),
                received_denom: funds[0].denom.clone(),
            },
        );
    }
    let required_deposit_amt: u128 = match order_type {
        OrderType::Back => stake,
        OrderType::Lay => {
            match decimal_times_uint128_trunc(odds - DECIMAL_FRACTIONAL, stake) {
                Ok(v) => v,
                Err(e) => {
                    return Err(e);
                },
            }
        },
    };
    if funds[0].amount != required_deposit_amt {
        return Err(
            ContractError::InsufficientFundsSent {
                required: required_deposit_amt,
                sent: funds[0].amount,
            },
        );
    }
    let order_id = ex.orders.len() as u64 + 1;
    let order = Order {
        id: order_id,
        event_id,
        owner: sender.clone(),
        order_type,
        outcome,
        initial_backer_stake: stake,
        remaining_backer_stake: stake,
        odds,
        creation_time: now,
        status: OrderStatus::Open,
    };
    ex.orders.push(order);
    let ghost mid = *ex;
    let ghost pre = *old(ex);
    let ghost new_idx = pre.orders@.len() as int;
    let ghost dep = required_deposit(order_type, odds as int, stake as int);
    proof {
        assert forall|l: int| 0 <= l < ex.orders@.len() implies valid_order(
            #[trigger] ex.orders@[l],
            l,
            ex.events@.len() as int,
        ) by {
            if l < new_idx {
                assert(valid_order(pre.orders@[l], l, pre.events@.len() as int));
            }
        }
        assert forall|l: int| 0 <= l < ex.orders@.len() implies order_settled(
            #[trigger] ex.orders@[l],
            ex.events@,
        ) by {
            if l < new_idx {
                assert(order_settled(pre.orders@[l], pre.events@));
            }
        }
        crate::state::lemma_orders_reserved_push(pre.orders@, ex.orders@[new_idx], event_id);
        assert forall|e: u64| e != event_id implies orders_reserved_for(mid.orders@, e)
            == orders_reserved_for(pre.orders@, e) by {
            crate::state::lemma_orders_reserved_push(pre.orders@, mid.orders@[new_idx], e);
        }
    }
    let mr = match try_match_order(ex, now, order_id) {
        Ok(m) => m,
        Err(e) => {
            proof {
                assert(false);
            }
            return Err(e);
        },
    };
    proof {
        let post = *ex;
        assert(mid.orders@ == pre.orders@.push(
            new_order_spec(order_id, event_id, *sender, order_type, outcome, stake, odds, now),
        ));
        assert forall|e: u64| e != event_id implies event_obligations(post, e)
            == event_obligations(pre, e) by {
            assert forall|l: int| 0 <= l < post.orders@.len() implies order_contrib(
                #[trigger] mid.orders@[l],
                e,
            ) == order_contrib(post.orders@[l], e) by {
                if eligible_counter(mid.orders@, new_idx, l) {
                    assert(order_filled_down(mid.orders@[l], post.orders@[l]));
                    assert(mid.orders@[l].event_id == event_id);
                } else if l != new_idx {
                    assert(post.orders@[l] == mid.orders@[l]);
                }
            }
            lemma_orders_reserved_pointwise(mid.orders@, post.orders@, e);
            crate::state::lemma_orders_reserved_push(pre.orders@, mid.orders@[new_idx], e);
            assert forall|k: int|
                pre.matched_bets@.len() <= k < post.matched_bets@.len() implies
                crate::state::bet_contrib(#[trigger] post.matched_bets@[k], e) == 0 by {
                assert(bet_records_fill(
                    mid.orders@,
                    post.orders@,
                    new_idx,
                    post.matched_bets@[k],
                    k,
                    now,
                ));
            }
            crate::state::lemma_bets_pot_prefix(post.matched_bets@, pre.matched_bets@, e);
        }
    }
    Ok(
        PlaceOrderResponse {
            order_id,
            newly_matched_bet_ids: mr.newly_matched_bet_ids,
            order_fully_filled: mr.order_fully_filled,
        },
    )
}

/// Exact-odds matching: a resting order whose odds differ from the new
/// order's, however compatible otherwise, is never filled by the matching
/// scan — it is left exactly as it was — and every bet the scan created
/// carries the new order's odds.
pub proof fn lemma_exact_odds_matching(
    pre_orders: Seq<Order>,
    pre_bets: Seq<MatchedBet>,
    post_orders: Seq<Order>,
    post_bets: Seq<MatchedBet>,
    new_idx: int,
    new_bet_ids: Seq<u64>,
    filled: bool,
    now: u64,
    j: int,
)
    requires
        match_post(pre_orders, pre_bets, post_orders, post_bets, new_idx, new_bet_ids, filled, now),
        0 <= new_idx < pre_orders.len(),
        0 <= j < pre_orders.len(),
        j != new_idx,
        pre_orders[j].odds != pre_orders[new_idx].odds,
    ensures
        post_orders[j] == pre_orders[j],
        forall|k: int|
            pre_bets.len() <= k < post_bets.len() ==> (#[trigger] post_bets[k]).odds
                == pre_orders[new_idx].odds,
{
    assert(!eligible_counter(pre_orders, new_idx, j));
    assert forall|k: int|
        pre_bets.len() <= k < post_bets.len() implies (#[trigger] post_bets[k]).odds
        == pre_orders[new_idx].odds by {
        assert(bet_records_fill(pre_orders, post_orders, new_idx, post_bets[k], k, now));
    }
}

/// FIFO fairness: among the counter-orders eligible against a new order, one
/// that arrived earlier (a smaller order id) is exhausted in full before the
/// matching scan touches a later one at all.
pub proof fn lemma_fifo_fairness(
    pre_orders: Seq<Order>,
    pre_bets: Seq<MatchedBet>,
    post_orders: Seq<Order>,
    post_bets: Seq<MatchedBet>,
    new_idx: int,
    new_bet_ids: Seq<u64>,
    filled: bool,
    now: u64,
    earlier: int,
    later: int,
)
    requires
        match_post(pre_orders, pre_bets, post_orders, post_bets, new_idx, new_bet_ids, filled, now),
        eligible_counter(pre_orders, new_idx, earlier),
        eligible_counter(pre_orders, new_idx, later),
        earlier < later,
        post_orders[later].remaining_backer_stake < pre_orders[later].remaining_backer_stake,
    ensures
        post_orders[earlier].remaining_backer_stake == 0,
{
}

/// How many entries a listing returns at most: the caller's limit, defaulted
/// and capped.
pub open spec fn page_limit(limit: Option<u32>) -> int {
    let l = match limit {
        Some(v) => v as int,
        None => DEFAULT_LIMIT as int,
    };
    if l > MAX_LIMIT as int {
        MAX_LIMIT as int
    } else {
        l
    }
}

/// Whether an event appears in a listing: past the cursor and matching the
/// status filter.
pub open spec fn event_listed(ev: Event, start_after: Option<u64>, filter: Option<
    EventStatus,
>) -> bool {
    &&& (start_after matches Some(sa) ==> ev.id > sa)
    &&& (filter matches Some(f) ==> ev.status == f)
}

/// The first `budget` events at or after index `i` that the listing keeps.
pub open spec fn collect_events(
    s: Seq<Event>,
    start_after: Option<u64>,
    filter: Option<EventStatus>,
    i: int,
    budget: int,
) -> Seq<Event>
    decreases s.len() - i,
{
    if i < 0 || i >= s.len() || budget <= 0 {
        Seq::empty()
    } else if event_listed(s[i], start_after, filter) {
        seq![s[i]] + collect_events(s, start_after, filter, i + 1, budget - 1)
    } else {
        collect_events(s, start_after, filter, i + 1, budget)
    }
}

/// Whether an order appears in a listing for an event: past the cursor,
/// belonging to the event, matching the side and outcome filters, and still
/// resting on the book.
pub open spec fn order_listed(
    o: Order,
    event_id: u64,
    start_after: Option<u64>,
    filter_order_type: Option<OrderType>,
    filter_outcome: Option<Outcome>,
) -> bool {
    &&& (start_after matches Some(sa) ==> o.id > sa)
    &&& o.event_id == event_id
    &&& (filter_order_type matches Some(t) ==> o.order_type == t)
    &&& (filter_outcome matches Some(oc) ==> o.outcome == oc)
    &&& (o.status is Open || o.status is PartiallyFilled)
}

/// The first `budget` orders at or after index `i` that the listing keeps.
pub open spec fn collect_orders(
    s: Seq<Order>,
    event_id: u64,
    start_after: Option<u64>,
    filter_order_type: Option<OrderType>,
    filter_outcome: Option<Outcome>,
    i: int,
    budget: int,
) -> Seq<Order>
    decreases s.len() - i,
{
    if i < 0 || i >= s.len() || budget <= 0 {
        Seq::empty()
    } else if order_listed(s[i], event_id, start_after, filter_order_type, filter_outcome) {
        seq![s[i]] + collect_orders(
            s,
            event_id,
            start_after,
            filter_order_type,
            filter_outcome,
            i + 1,
            budget - 1,
        )
    } else {
        collect_orders(s, event_id, start_after, filter_order_type, filter_outcome, i + 1, budget)
    }
}

/// Whether a matched bet appears in a listing for an event: past the cursor
/// and belonging to the event.
pub open spec fn bet_listed(b: MatchedBet, event_id: u64, start_after: Option<u64>) -> bool {
    &&& (start_after matches Some(sa) ==> b.id > sa)
    &&& b.event_id == event_id
}

/// The first `budget` matched bets at or after index `i` that the listing
/// keeps.
pub open spec fn collect_bets(
    s: Seq<MatchedBet>,
    event_id: u64,
    start_after: Option<u64>,
    i: int,
    budget: int,
) -> Seq<MatchedBet>
    decreases s.len() - i,
{
    if i < 0 || i >= s.len() || budget <= 0 {
        Seq::empty()
    } else if bet_listed(s[i], event_id, start_after) {
        seq![s[i]] + collect_bets(s, event_id, start_after, i + 1, budget - 1)
    } else {
        collect_bets(s, event_id, start_after, i + 1, budget)
    }
}

fn effective_limit(limit: Option<u32>) -> (r: usize)
    ensures
        r == page_limit(limit),
{
    let l = match limit {
        Some(v) => v,
        None => DEFAULT_LIMIT,
    };
    let capped = if l > MAX_LIMIT {
        MAX_LIMIT
    } else {
        l
    };
    capped as usize
}

/// The configuration and the three id counters (each the count of entities
/// assigned so far).
pub fn query_config(ex: &Exchange) -> (r: ConfigResponse)
    ensures
        r.admin == ex.config.admin,
        r.betting_denom == ex.config.betting_denom,
        r.next_event_id == ex.events@.len(),
        r.next_order_id == ex.orders@.len(),
        r.next_bet_id == ex.matched_bets@.len(),
{
    ConfigResponse {
        admin: ex.config.admin.clone(),
        betting_denom: ex.config.betting_denom.clone(),
        next_event_id: ex.events.len() as u64,
        next_order_id: ex.orders.len() as u64,
        next_bet_id: ex.matched_bets.len() as u64,
    }
}

/// One event by id.
pub fn query_event(ex: &Exchange, event_id: u64) -> (r: Result<EventResponse, ContractError>)
    ensures
        r is Ok <==> 1 <= event_id <= ex.events@.len(),
        r matches Ok(resp) ==> resp.event == ex.events@[event_id - 1],
        r matches Err(e) ==> (e matches ContractError::EventNotFound { event_id: eid } && eid
            == event_id),
{
    if event_id == 0 || event_id > ex.events.len() as u64 {
        return Err(ContractError::EventNotFound { event_id });
    }
    let idx: usize = (event_id - 1) as usize;
    Ok(EventResponse { event: crate::state::clone_event(&ex.events[idx]) })
}

/// One order by id.
pub fn query_order(ex: &Exchange, order_id: u64) -> (r: Result<OrderResponse, ContractError>)
    ensures
        r is Ok <==> 1 <= order_id <= ex.orders@.len(),
        r matches Ok(resp) ==> resp.order == ex.orders@[order_id - 1],
        r matches Err(e) ==> (e matches ContractError::OrderNotFound { order_id: oid } && oid
            == order_id),
{
    if order_id == 0 || order_id > ex.orders.len() as u64 {
        return Err(ContractError::OrderNotFound { order_id });
    }
    let idx: usize = (order_id - 1) as usize;
    Ok(OrderResponse { order: crate::state::clone_order(&ex.orders[idx]) })
}

/// Events in id order, starting after the cursor, optionally filtered by
/// status, at most the capped limit of them.
#[verifier::loop_isolation(false)]
pub fn query_list_events(
    ex: &Exchange,
    start_after: Option<u64>,
    limit: Option<u32>,
    filter_status: Option<EventStatus>,
) -> (r: EventsResponse)
    ensures
        r.events@ == collect_events(ex.events@, start_after, filter_status, 0, page_limit(limit)),
{
    let lim = effective_limit(limit);
    let mut events: Vec<Event> = Vec::new();
    let n = ex.events.len();
    let mut i: usize = 0;
    while i < n && events.len() < lim
        invariant
            i <= n,
            events@.len() <= lim,
            collect_events(ex.events@, start_after, filter_status, 0, lim as int) == events@
                + collect_events(
                ex.events@,
                start_after,
                filter_status,
                i as int,
                lim - events@.len(),
            ),
        decreases n - i,
    {
        let keep = (match start_after {
            Some(sa) => ex.events[i].id > sa,
            None => true,
        }) && (match filter_status {
            Some(f) => ex.events[i].status == f,
            None => true,
        });
        let ghost events0 = events@;
        if keep {
            events.push(crate::state::clone_event(&ex.events[i]));
            proof {
                assert(events@ + collect_events(
                    ex.events@,
                    start_after,
                    filter_status,
                    i as int + 1,
                    lim - events@.len(),
                ) =~= events0 + (seq![ex.events@[i as int]] + collect_events(
                    ex.events@,
                    start_after,
                    filter_status,
                    i as int + 1,
                    lim - events@.len(),
                )));
            }
        }
        i += 1;
    }
    proof {
        assert(collect_events(ex.events@, start_after, filter_status, i as int, lim - events@.len())
            =~= Seq::<Event>::empty());
        assert(events@ + Seq::<Event>::empty() =~= events@);
    }
    EventsResponse { events }
}

/// Resting (open or partially filled) orders of an event in id order,
/// starting after the cursor, optionally filtered by side and outcome, at
/// most the capped limit of them.
#[verifier::loop_isolation(false)]
pub fn query_list_orders_by_event(
    ex: &Exchange,
    event_id: u64,
    start_after: Option<u64>,
    limit: Option<u32>,
    filter_order_type: Option<OrderType>,
    filter_outcome: Option<Outcome>,
) -> (r: OrdersResponse)
    ensures
        r.orders@ == collect_orders(
            ex.orders@,
            event_id,
            start_after,
            filter_order_type,
            filter_outcome,
            0,
            page_limit(limit),
        ),
{
    let lim = effective_limit(limit);
    let mut orders: Vec<Order> = Vec::new();
    let n = ex.orders.len();
    let mut i: usize = 0;
    while i < n && orders.len() < lim
        invariant
            i <= n,
            orders@.len() <= lim,
            collect_orders(
                ex.orders@,
                event_id,
                start_after,
                filter_order_type,
                filter_outcome,
                0,
                lim as int,
            ) == orders@ + collect_orders(
                ex.orders@,
                event_id,
                start_after,
                filter_order_type,
                filter_outcome,
                i as int,
                lim - orders@.len(),
            ),
        decreases n - i,
    {
        let resting = match ex.orders[i].status {
            OrderStatus::Open => true,
            OrderStatus::PartiallyFilled => true,
            _ => false,
        };
        let keep = (match start_after {
            Some(sa) => ex.orders[i].id > sa,
            None => true,
        }) && ex.orders[i].event_id == event_id && (match filter_order_type {
            Some(t) => ex.orders[i].order_type == t,
            None => true,
        }) && (match filter_outcome {
            Some(oc) => ex.orders[i].outcome == oc,
            None => true,
        }) && resting;
        let ghost orders0 = orders@;
        if keep {
            orders.push(crate::state::clone_order(&ex.orders[i]));
            proof {
                assert(orders@ + collect_orders(
                    ex.orders@,
                    event_id,
                    start_after,
                    filter_order_type,
                    filter_outcome,
                    i as int + 1,
                    lim - orders@.len(),
                ) =~= orders0 + (seq![ex.orders@[i as int]] + collect_orders(
                    ex.orders@,
                    event_id,
                    start_after,
                    filter_order_type,
                    filter_outcome,
                    i as int + 1,
                    lim - orders@.len(),
                )));
            }
        }
        i += 1;
    }
    proof {
        assert(collect_orders(
            ex.orders@,
            event_id,
            start_after,
            filter_order_type,
            filter_outcome,
            i as int,
            lim - orders@.len(),
        ) =~= Seq::<Order>::empty());
        assert(orders@ + Seq::<Order>::empty() =~= orders@);
    }
    OrdersResponse { orders }
}

/// Matched bets of an event in bet-id order, starting after the cursor, at
/// most the capped limit of them.
#[verifier::loop_isolation(false)]
pub fn query_list_matched_bets_by_event(
    ex: &Exchange,
    event_id: u64,
    start_after: Option<u64>,
    limit: Option<u32>,
) -> (r: MatchedBetsResponse)
    ensures
        r.matched_bets@ == collect_bets(
            ex.matched_bets@,
            event_id,
            start_after,
            0,
            page_limit(limit),
        ),
{
    let lim = effective_limit(limit);
    let mut matched_bets: Vec<MatchedBet> = Vec::new();
    let n = ex.matched_bets.len();
    let mut i: usize = 0;
    while i < n && matched_bets.len() < lim
        invariant
            i <= n,
            matched_bets@.len() <= lim,
            collect_bets(ex.matched_bets@, event_id, start_after, 0, lim as int) == matched_bets@
                + collect_bets(
                ex.matched_bets@,
                event_id,
                start_after,
                i as int,
                lim - matched_bets@.len(),
            ),
        decreases n - i,
    {
        let keep = (match start_after {
            Some(sa) => ex.matched_bets[i].id > sa,
            None => true,
        }) && ex.matched_bets[i].event_id == event_id;
        let ghost bets0 = matched_bets@;
        if keep {
            matched_bets.push(crate::state::clone_bet(&ex.matched_bets[i]));
            proof {
                assert(matched_bets@ + collect_bets(
                    ex.matched_bets@,
                    event_id,
                    start_after,
                    i as int + 1,
                    lim - matched_bets@.len(),
                ) =~= bets0 + (seq![ex.matched_bets@[i as int]] + collect_bets(
                    ex.matched_bets@,
                    event_id,
                    start_after,
                    i as int + 1,
                    lim - matched_bets@.len(),
                )));
            }
        }
        i += 1;
    }
    proof {
        assert(collect_bets(
            ex.matched_bets@,
            event_id,
            start_after,
            i as int,
            lim - matched_bets@.len(),
        ) =~= Seq::<MatchedBet>::empty());
        assert(matched_bets@ + Seq::<MatchedBet>::empty() =~= matched_bets@);
    }
    MatchedBetsResponse { matched_bets }
}

} // verus!
