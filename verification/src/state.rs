//! The exchange's persistent state, modelled as plain tables: events, orders
//! and matched bets are kept in vectors where the entity with id `i` sits at
//! index `i - 1` (ids are assigned sequentially from 1 and entities are never
//! deleted). Well-formedness ties every order and bet to its event and pins
//! the bookkeeping invariants of partial fills.

use vstd::prelude::*;

use crate::contract::{liability_of, required_deposit, DECIMAL_FRACTIONAL};
use crate::msg::{EventStatus, OrderStatus, OrderType, Outcome};

verus! {

/// Process-wide settings, fixed at initialization.
pub struct Config {
    pub admin: String,
    pub betting_denom: String,
}

/// A betting market whose outcome the designated oracle later declares.
pub struct Event {
    pub id: u64,
    pub creator: String,
    pub description: String,
    pub oracle: String,
    pub status: EventStatus,
    pub winning_outcome: Option<Outcome>,
    pub resolution_deadline: Option<u64>,
    pub creation_time: u64,
}

/// A resting or historical order. Stake amounts are denominated in the
/// configured denomination; `odds` is a fixed-point multiplier in atomics.
pub struct Order {
    pub id: u64,
    pub event_id: u64,
    pub owner: String,
    pub order_type: OrderType,
    pub outcome: Outcome,
    pub initial_backer_stake: u128,
    pub remaining_backer_stake: u128,
    pub odds: u128,
    pub creation_time: u64,
    pub status: OrderStatus,
}

/// An immutable record of one fill between a back and a lay order; its pot
/// (`backer_stake + layer_liability`) is paid out once at resolution.
pub struct MatchedBet {
    pub id: u64,
    pub event_id: u64,
    pub backer_addr: String,
    pub lay_addr: String,
    pub backer_stake: u128,
    pub layer_liability: u128,
    pub outcome_backed: Outcome,
    pub odds: u128,
    pub creation_time: u64,
}

/// A single coin attachment, as sent along with an operation.
pub struct Coin {
    pub denom: String,
    pub amount: u128,
}

/// An outgoing fund-transfer instruction for the host to execute within the
/// same atomic operation.
pub struct Payment {
    pub to_address: String,
    pub denom: String,
    pub amount: u128,
}

/// The whole keyed store: configuration, the three entity tables, and the
/// implicit id counters (an entity's id is its index plus one, so the next id
/// of each table is its length plus one).
pub struct Exchange {
    pub config: Config,
    pub events: Vec<Event>,
    pub orders: Vec<Order>,
    pub matched_bets: Vec<MatchedBet>,
}

pub open spec fn valid_event(ev: Event, i: int) -> bool {
    &&& ev.id == i + 1
    &&& ev.description@.len() > 0
    &&& (ev.winning_outcome is Some <==> ev.status is Resolved)
    &&& !(ev.status is Cancelled)
}

pub open spec fn valid_order(o: Order, i: int, n_events: int) -> bool {
    &&& o.id == i + 1
    &&& 1 <= o.event_id <= n_events
    &&& 1 <= o.initial_backer_stake
    &&& o.remaining_backer_stake <= o.initial_backer_stake
    &&& o.odds > DECIMAL_FRACTIONAL
    &&& (o.status is Filled <==> o.remaining_backer_stake == 0)
    &&& (o.status is Open ==> o.remaining_backer_stake == o.initial_backer_stake)
    &&& (o.status is PartiallyFilled ==> o.remaining_backer_stake < o.initial_backer_stake)
    &&& (o.order_type is Lay ==> (o.odds - DECIMAL_FRACTIONAL) * o.initial_backer_stake
        <= u128::MAX)
}

pub open spec fn valid_bet(b: MatchedBet, i: int, n_events: int) -> bool {
    &&& b.id == i + 1
    &&& 1 <= b.event_id <= n_events
    &&& 1 <= b.backer_stake
    &&& b.odds > DECIMAL_FRACTIONAL
    &&& (b.odds - DECIMAL_FRACTIONAL) * b.backer_stake <= u128::MAX
    &&& b.layer_liability == liability_of(b.odds as int, b.backer_stake as int)
    &&& b.backer_addr@ != b.lay_addr@
}

/// Orders of a resolved event have reached a terminal status: settlement
/// finalizes every open or partially filled order of the event it resolves.
pub open spec fn order_settled(o: Order, events: Seq<Event>) -> bool {
    events[o.event_id - 1].status is Resolved ==> (o.status is Filled || o.status is Cancelled)
}

pub open spec fn wf(ex: Exchange) -> bool {
    &&& forall|i: int|
        0 <= i < ex.events@.len() ==> valid_event(#[trigger] ex.events@[i], i)
    &&& forall|i: int|
        0 <= i < ex.orders@.len() ==> valid_order(
            #[trigger] ex.orders@[i],
            i,
            ex.events@.len() as int,
        )
    &&& forall|i: int|
        0 <= i < ex.orders@.len() ==> order_settled(#[trigger] ex.orders@[i], ex.events@)
    &&& forall|i: int|
        0 <= i < ex.matched_bets@.len() ==> valid_bet(
            #[trigger] ex.matched_bets@[i],
            i,
            ex.events@.len() as int,
        )
}

/// Funds an order still reserves: the deposit formula applied to its
/// remaining stake while it rests on the book, nothing once it is terminal.
pub open spec fn order_reserved(o: Order) -> int {
    if o.status is Open || o.status is PartiallyFilled {
        required_deposit(o.order_type, o.odds as int, o.remaining_backer_stake as int)
    } else {
        0
    }
}

/// `order_reserved`, counted only for orders of the given event.
pub open spec fn order_contrib(o: Order, event_id: u64) -> int {
    if o.event_id == event_id {
        order_reserved(o)
    } else {
        0
    }
}

pub open spec fn orders_reserved_for(s: Seq<Order>, event_id: u64) -> int
    decreases s.len(),
{
    if s.len() == 0 {
        0
    } else {
        orders_reserved_for(s.drop_last(), event_id) + order_contrib(s.last(), event_id)
    }
}

/// The escrowed pot of one matched bet.
pub open spec fn bet_pot(b: MatchedBet) -> int {
    b.backer_stake + b.layer_liability
}

pub open spec fn bet_contrib(b: MatchedBet, event_id: u64) -> int {
    if b.event_id == event_id {
        bet_pot(b)
    } else {
        0
    }
}

pub open spec fn bets_pot_for(s: Seq<MatchedBet>, event_id: u64) -> int
    decreases s.len(),
{
    if s.len() == 0 {
        0
    } else {
        bets_pot_for(s.drop_last(), event_id) + bet_contrib(s.last(), event_id)
    }
}

pub open spec fn event_open(events: Seq<Event>, event_id: u64) -> bool {
    &&& 1 <= event_id <= events.len()
    &&& events[event_id - 1].status is Open
}

/// Everything the exchange still owes on account of one event: the pots of
/// its matched bets while the event is open, plus the reserved remainder of
/// each of its resting orders. Resolution drives this to zero.
pub open spec fn event_obligations(ex: Exchange, event_id: u64) -> int {
    (if event_open(ex.events@, event_id) {
        bets_pot_for(ex.matched_bets@, event_id)
    } else {
        0
    }) + orders_reserved_for(ex.orders@, event_id)
}

/// Conservation, one operation at a time: if the funds held on account of an
/// event covered its outstanding obligations before an operation, they still
/// do after it. Each operation's own contract supplies the premise on its
/// deltas: placing an order takes in exactly the required deposit and grows
/// the obligations by at most that deposit; cancelling pays out exactly the
/// cancelled order's reserved remainder; resolving pays out exactly the
/// event's whole obligations and leaves none. By induction from an empty
/// exchange, the funds held therefore always cover the obligations, and what
/// resolution pays is exactly what was owed.
pub proof fn lemma_conservation_step(
    held_before: int,
    deposit: int,
    paid: int,
    obligations_before: int,
    obligations_after: int,
)
    requires
        held_before >= obligations_before,
        deposit - paid >= obligations_after - obligations_before,
    ensures
        held_before + deposit - paid >= obligations_after,
{
}

pub open spec fn payments_total(s: Seq<Payment>) -> int
    decreases s.len(),
{
    if s.len() == 0 {
        0
    } else {
        payments_total(s.drop_last()) + s.last().amount
    }
}

pub proof fn lemma_orders_reserved_push(s: Seq<Order>, o: Order, event_id: u64)
    ensures
        orders_reserved_for(s.push(o), event_id) == orders_reserved_for(s, event_id)
            + order_contrib(o, event_id),
{
    assert(s.push(o).drop_last() =~= s);
}

pub proof fn lemma_orders_reserved_update(s: Seq<Order>, i: int, o: Order, event_id: u64)
    requires
        0 <= i < s.len(),
    ensures
        orders_reserved_for(s.update(i, o), event_id) == orders_reserved_for(s, event_id)
            - order_contrib(s[i], event_id) + order_contrib(o, event_id),
    decreases s.len(),
{
    let t = s.update(i, o);
    if i == s.len() - 1 {
        assert(t.drop_last() =~= s.drop_last());
    } else {
        assert(t.drop_last() =~= s.drop_last().update(i, o));
        assert(t.last() == s.last());
        lemma_orders_reserved_update(s.drop_last(), i, o, event_id);
    }
}

pub proof fn lemma_orders_reserved_zero(s: Seq<Order>, event_id: u64)
    requires
        forall|j: int| 0 <= j < s.len() ==> order_contrib(#[trigger] s[j], event_id) == 0,
    ensures
        orders_reserved_for(s, event_id) == 0,
    decreases s.len(),
{
    if s.len() > 0 {
        lemma_orders_reserved_zero(s.drop_last(), event_id);
    }
}

pub proof fn lemma_orders_reserved_pointwise(s1: Seq<Order>, s2: Seq<Order>, event_id: u64)
    requires
        s1.len() == s2.len(),
        forall|j: int|
            0 <= j < s1.len() ==> order_contrib(#[trigger] s1[j], event_id) == order_contrib(
                #[trigger] s2[j],
                event_id,
            ),
    ensures
        orders_reserved_for(s1, event_id) == orders_reserved_for(s2, event_id),
    decreases s1.len(),
{
    if s1.len() > 0 {
        lemma_orders_reserved_pointwise(s1.drop_last(), s2.drop_last(), event_id);
    }
}

pub proof fn lemma_bets_pot_push(s: Seq<MatchedBet>, b: MatchedBet, event_id: u64)
    ensures
        bets_pot_for(s.push(b), event_id) == bets_pot_for(s, event_id) + bet_contrib(b, event_id),
{
    assert(s.push(b).drop_last() =~= s);
}

pub proof fn lemma_bets_pot_zero(s: Seq<MatchedBet>, event_id: u64)
    requires
        forall|j: int| 0 <= j < s.len() ==> bet_contrib(#[trigger] s[j], event_id) == 0,
    ensures
        bets_pot_for(s, event_id) == 0,
    decreases s.len(),
{
    if s.len() > 0 {
        lemma_bets_pot_zero(s.drop_last(), event_id);
    }
}

pub proof fn lemma_payments_total_push(s: Seq<Payment>, p: Payment)
    ensures
        payments_total(s.push(p)) == payments_total(s) + p.amount,
{
    assert(s.push(p).drop_last() =~= s);
}

pub proof fn lemma_mul_le_mono_right(a: int, b: int, c: int)
    requires
        0 <= a,
        0 <= b <= c,
    ensures
        a * b <= a * c,
{
    assert(a * b <= a * c) by (nonlinear_arith)
        requires
            0 <= a,
            b <= c,
    ;
}

/// An order's reserved remainder is a representable, non-negative amount.
pub proof fn lemma_order_reserved_bounds(o: Order, i: int, n_events: int)
    requires
        valid_order(o, i, n_events),
    ensures
        0 <= order_reserved(o) <= u128::MAX,
{
    if (o.status is Open || o.status is PartiallyFilled) && o.order_type is Lay {
        let d = o.odds - DECIMAL_FRACTIONAL;
        let rem = o.remaining_backer_stake as int;
        let init = o.initial_backer_stake as int;
        assert(0 <= d * rem) by (nonlinear_arith)
            requires
                0 <= d,
                0 <= rem,
        ;
        lemma_mul_le_mono_right(d, rem, init);
        vstd::arithmetic::div_mod::lemma_div_pos_is_pos(d * rem, DECIMAL_FRACTIONAL as int);
        vstd::arithmetic::div_mod::lemma_div_nonincreasing(d * rem, DECIMAL_FRACTIONAL as int);
    }
}

/// How resolution finalizes one order: a still-resting order of the event is
/// forced to `Cancelled` with everything else kept; any other order is left
/// as it was.
pub open spec fn processed_order(pre: Order, post: Order, event_id: u64) -> bool {
    if pre.event_id == event_id && (pre.status is Open || pre.status is PartiallyFilled) {
        post == Order { status: OrderStatus::Cancelled, ..pre }
    } else {
        post == pre
    }
}

pub proof fn lemma_payments_total_concat(a: Seq<Payment>, b: Seq<Payment>)
    ensures
        payments_total(a + b) == payments_total(a) + payments_total(b),
    decreases b.len(),
{
    if b.len() == 0 {
        assert(a + b =~= a);
    } else {
        assert((a + b).drop_last() =~= a + b.drop_last());
        assert((a + b).last() == b.last());
        lemma_payments_total_concat(a, b.drop_last());
    }
}

/// Whether every pot of the event's matched bets is representable, so that
/// settlement's checked additions all succeed.
pub open spec fn all_event_pots_fit(s: Seq<MatchedBet>, event_id: u64) -> bool {
    forall|l: int|
        0 <= l < s.len() && (#[trigger] s[l]).event_id == event_id ==> bet_pot(s[l]) <= u128::MAX
}

/// The identity a matched bet pays at resolution: the backer when the backed
/// outcome won, else the layer.
pub open spec fn bet_winner(b: MatchedBet, winning: Outcome) -> String {
    if b.outcome_backed == winning {
        b.backer_addr
    } else {
        b.lay_addr
    }
}

/// The single payout instruction of one matched bet: its whole pot, to the
/// winning side.
pub open spec fn payout_payment(b: MatchedBet, winning: Outcome, denom: String) -> Payment {
    Payment {
        to_address: bet_winner(b, winning),
        denom,
        amount: (b.backer_stake + b.layer_liability) as u128,
    }
}

/// The payout instructions of a resolution: one per matched bet of the event,
/// in bet-id order.
pub open spec fn payout_seq(
    s: Seq<MatchedBet>,
    event_id: u64,
    winning: Outcome,
    denom: String,
) -> Seq<Payment>
    decreases s.len(),
{
    if s.len() == 0 {
        Seq::empty()
    } else {
        let rest = payout_seq(s.drop_last(), event_id, winning, denom);
        if s.last().event_id == event_id {
            rest.push(payout_payment(s.last(), winning, denom))
        } else {
            rest
        }
    }
}

pub proof fn lemma_payout_seq_take_step(
    s: Seq<MatchedBet>,
    k: int,
    event_id: u64,
    winning: Outcome,
    denom: String,
)
    requires
        0 <= k < s.len(),
    ensures
        payout_seq(s.take(k + 1), event_id, winning, denom) == if s[k].event_id == event_id {
            payout_seq(s.take(k), event_id, winning, denom).push(
                payout_payment(s[k], winning, denom),
            )
        } else {
            payout_seq(s.take(k), event_id, winning, denom)
        },
{
    assert(s.take(k + 1).drop_last() =~= s.take(k));
    assert(s.take(k + 1).last() == s[k]);
}

pub proof fn lemma_payout_seq_total(s: Seq<MatchedBet>, event_id: u64, winning: Outcome, denom: String)
    requires
        forall|j: int|
            0 <= j < s.len() && (#[trigger] s[j]).event_id == event_id ==> bet_pot(s[j])
                <= u128::MAX,
    ensures
        payments_total(payout_seq(s, event_id, winning, denom)) == bets_pot_for(s, event_id),
    decreases s.len(),
{
    if s.len() > 0 {
        lemma_payout_seq_total(s.drop_last(), event_id, winning, denom);
        if s.last().event_id == event_id {
            lemma_payments_total_push(
                payout_seq(s.drop_last(), event_id, winning, denom),
                payout_payment(s.last(), winning, denom),
            );
        }
    }
}

/// Whether a resting order gets a refund instruction at resolution: it
/// belongs to the event, still rests on the book, and its remaining deposit
/// is positive.
pub open spec fn order_refunds(o: Order, event_id: u64) -> bool {
    &&& o.event_id == event_id
    &&& (o.status is Open || o.status is PartiallyFilled)
    &&& o.remaining_backer_stake > 0
    &&& order_reserved(o) > 0
}

pub open spec fn refund_payment(o: Order, denom: String) -> Payment {
    Payment { to_address: o.owner, denom, amount: order_reserved(o) as u128 }
}

/// The refund instructions of a resolution: one per still-resting order of
/// the event with a positive remaining deposit, in order-id order.
pub open spec fn refund_seq(s: Seq<Order>, event_id: u64, denom: String) -> Seq<Payment>
    decreases s.len(),
{
    if s.len() == 0 {
        Seq::empty()
    } else {
        let rest = refund_seq(s.drop_last(), event_id, denom);
        if order_refunds(s.last(), event_id) {
            rest.push(refund_payment(s.last(), denom))
        } else {
            rest
        }
    }
}

pub proof fn lemma_refund_seq_take_step(s: Seq<Order>, k: int, event_id: u64, denom: String)
    requires
        0 <= k < s.len(),
    ensures
        refund_seq(s.take(k + 1), event_id, denom) == if order_refunds(s[k], event_id) {
            refund_seq(s.take(k), event_id, denom).push(refund_payment(s[k], denom))
        } else {
            refund_seq(s.take(k), event_id, denom)
        },
{
    assert(s.take(k + 1).drop_last() =~= s.take(k));
    assert(s.take(k + 1).last() == s[k]);
}

pub proof fn lemma_refund_seq_total(s: Seq<Order>, event_id: u64, denom: String)
    requires
        forall|j: int|
            0 <= j < s.len() ==> 0 <= order_contrib(#[trigger] s[j], event_id) <= u128::MAX,
    ensures
        payments_total(refund_seq(s, event_id, denom)) == orders_reserved_for(s, event_id),
    decreases s.len(),
{
    if s.len() > 0 {
        lemma_refund_seq_total(s.drop_last(), event_id, denom);
        let o = s.last();
        if order_refunds(o, event_id) {
            lemma_payments_total_push(refund_seq(s.drop_last(), event_id, denom), refund_payment(o, denom));
        } else if o.event_id == event_id && (o.status is Open || o.status is PartiallyFilled)
            && o.remaining_backer_stake == 0 {
            assert((o.odds - DECIMAL_FRACTIONAL) * (o.remaining_backer_stake as int) == 0)
                by (nonlinear_arith)
                requires
                    o.remaining_backer_stake as int == 0,
            ;
            vstd::arithmetic::div_mod::lemma_div_of0(DECIMAL_FRACTIONAL as int);
        }
    }
}

pub proof fn lemma_bets_pot_prefix(post: Seq<MatchedBet>, pre: Seq<MatchedBet>, event_id: u64)
    requires
        pre.len() <= post.len(),
        forall|k: int| 0 <= k < pre.len() ==> post[k] == pre[k],
        forall|k: int|
            pre.len() <= k < post.len() ==> bet_contrib(#[trigger] post[k], event_id) == 0,
    ensures
        bets_pot_for(post, event_id) == bets_pot_for(pre, event_id),
    decreases post.len(),
{
    if post.len() > pre.len() {
        lemma_bets_pot_prefix(post.drop_last(), pre, event_id);
    } else {
        assert(post =~= pre);
    }
}

/// Splitting a non-negative numerator keeps the floored quotient within one:
/// the two halves together never exceed the whole, and fall short by at most
/// one unit.
pub proof fn lemma_div_add_bounds(u: int, v: int, e: int)
    requires
        0 <= u,
        0 <= v,
        0 < e,
    ensures
        u / e + v / e <= (u + v) / e,
        (u + v) / e <= u / e + v / e + 1,
{
    vstd::arithmetic::div_mod::lemma_fundamental_div_mod(u, e);
    vstd::arithmetic::div_mod::lemma_fundamental_div_mod(v, e);
    vstd::arithmetic::div_mod::lemma_mod_division_less_than_divisor(u, e);
    vstd::arithmetic::div_mod::lemma_mod_division_less_than_divisor(v, e);
    let q = u / e + v / e;
    let rr = u % e + v % e;
    assert(u + v == rr + q * e) by (nonlinear_arith)
        requires
            u == e * (u / e) + u % e,
            v == e * (v / e) + v % e,
            q == u / e + v / e,
            rr == u % e + v % e,
    ;
    vstd::arithmetic::div_mod::lemma_hoist_over_denominator(rr, q, e as nat);
    if rr < e {
        vstd::arithmetic::div_mod::lemma_basic_div(rr, e);
    } else {
        vstd::arithmetic::div_mod::lemma_hoist_over_denominator(rr - e, 1, e as nat);
        vstd::arithmetic::div_mod::lemma_basic_div(rr - e, e);
    }
}

/// Filling part of a lay order's remainder loses at most one atomic unit of
/// escrow to truncation: the liability of the filled part plus the liability
/// of what remains stays within one unit below the liability of the whole.
pub proof fn lemma_liability_split_bounds(odds: int, r: int, m: int)
    requires
        DECIMAL_FRACTIONAL < odds,
        0 <= m <= r,
    ensures
        liability_of(odds, m) + liability_of(odds, r - m) <= liability_of(odds, r),
        liability_of(odds, r) <= liability_of(odds, m) + liability_of(odds, r - m) + 1,
{
    let a = odds - DECIMAL_FRACTIONAL as int;
    let u = a * (r - m);
    let v = a * m;
    assert(u + v == a * r) by (nonlinear_arith)
        requires
            u == a * (r - m),
            v == a * m,
    ;
    assert(0 <= u && 0 <= v) by (nonlinear_arith)
        requires
            0 < a,
            0 <= r - m,
            0 <= m,
            u == a * (r - m),
            v == a * m,
    ;
    lemma_div_add_bounds(u, v, DECIMAL_FRACTIONAL as int);
}

/// A field-for-field copy; `String` fields are cloned.
pub fn clone_event(e: &Event) -> (r: Event)
    ensures
        r == *e,
{
    Event {
        id: e.id,
        creator: e.creator.clone(),
        description: e.description.clone(),
        oracle: e.oracle.clone(),
        status: e.status,
        winning_outcome: e.winning_outcome,
        resolution_deadline: e.resolution_deadline,
        creation_time: e.creation_time,
    }
}

/// A field-for-field copy; `String` fields are cloned.
pub fn clone_order(o: &Order) -> (r: Order)
    ensures
        r == *o,
{
    Order {
        id: o.id,
        event_id: o.event_id,
        owner: o.owner.clone(),
        order_type: o.order_type,
        outcome: o.outcome,
        initial_backer_stake: o.initial_backer_stake,
        remaining_backer_stake: o.remaining_backer_stake,
        odds: o.odds,
        creation_time: o.creation_time,
        status: o.status,
    }
}

/// A field-for-field copy; `String` fields are cloned.
pub fn clone_bet(b: &MatchedBet) -> (r: MatchedBet)
    ensures
        r == *b,
{
    MatchedBet {
        id: b.id,
        event_id: b.event_id,
        backer_addr: b.backer_addr.clone(),
        lay_addr: b.lay_addr.clone(),
        backer_stake: b.backer_stake,
        layer_liability: b.layer_liability,
        outcome_backed: b.outcome_backed,
        odds: b.odds,
        creation_time: b.creation_time,
    }
}

} // verus!
