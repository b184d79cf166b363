use vstd::arithmetic::div_mod::{
    lemma_div_is_ordered, lemma_div_multiples_vanish, lemma_div_multiples_vanish_fancy,
    lemma_fundamental_div_mod, lemma_mod_multiples_basic,
};
use vstd::prelude::*;

use crate::bookside::{
    base_amount_sum, insert_position, lemma_base_sum_insert, lemma_base_sum_remove,
    lemma_base_sum_split, lemma_mul_u64_fits_u128, lemma_price_at_least_trans,
    lemma_quote_sum_split, price_at_least, quote_amount_sum, side_tag, with_amounts, BookSide,
    BookSideOrder, Side, BOOK_SIDE_CAPACITY,
};
use crate::errors::ClobbyProgramError;
use crate::ids::AccountId;
use crate::market::{market_book_wf, Market};
use crate::market_events::{
    event_base_sum, event_of, event_quote_sum, lemma_event_sums_push, Event, EventParams,
    EventType, MarketEvents, EVENT_CAPACITY, EVENT_SAFETY_MARGIN,
};

verus! {

/// Resting orders a single placement may match against.
pub const MAX_ORDERS_TO_MATCH: usize = 5;

/// What the caller asks for: a side, a size in lots, a total quote
/// commitment (the price, expressed as quote owed or owned for the whole
/// requested base amount), and whether a partial fill must be rejected.
#[derive(Clone, Copy, Debug)]
pub struct PlaceOrderArgs {
    pub side: Side,
    /// Number of base lots to buy or sell.
    pub base_lots: u16,
    pub quote_amount: u64,
    /// Immediate-or-cancel.
    pub ioc: bool,
}

/// How a successful placement ended: fully executed against the book, or
/// resting on the taker's side under the returned order id.
#[derive(Clone, Copy, Debug, PartialEq, Eq, Structural)]
pub enum PlaceOrderOutcome {
    FullyExecuted,
    Resting(u64),
}

pub open spec fn opposite_side(side: Side) -> Side {
    match side {
        Side::Bid => Side::Ask,
        Side::Ask => Side::Bid,
    }
}

/// Price protection: a taker trades against a resting order only if the
/// resting order's quote-per-base-unit is no worse than the taker's own
/// commitment of `taker_quote` for `taker_base` base units.
pub open spec fn price_compatible(
    taker_side: Side,
    taker_quote: int,
    taker_base: int,
    o: BookSideOrder,
) -> bool {
    match taker_side {
        Side::Bid => (o.quote_amount as int) * taker_base <= taker_quote * (o.base_amount as int),
        Side::Ask => (o.quote_amount as int) * taker_base >= taker_quote * (o.base_amount as int),
    }
}

/// The base amounts a placement takes out of the opposing orders, walking
/// from the best price: each matched order gives up the smaller of its
/// remaining base and the taker's remaining base.  The walk stops at the
/// match limit, at zero remaining, or at the first price-incompatible order.
pub open spec fn match_amounts(
    s: Seq<BookSideOrder>,
    remaining: int,
    taker_side: Side,
    taker_quote: int,
    taker_base: int,
    limit: nat,
) -> Seq<int>
    decreases s.len(),
{
    if s.len() == 0 || limit == 0 || remaining <= 0 || !price_compatible(
        taker_side,
        taker_quote,
        taker_base,
        s[0],
    ) {
        Seq::empty()
    } else {
        let eaten = if s[0].base_amount <= remaining {
            s[0].base_amount as int
        } else {
            remaining
        };
        seq![eaten] + match_amounts(
            s.drop_first(),
            remaining - eaten,
            taker_side,
            taker_quote,
            taker_base,
            (limit - 1) as nat,
        )
    }
}

pub open spec fn int_sum(s: Seq<int>) -> int
    decreases s.len(),
{
    if s.len() == 0 {
        0
    } else {
        s[0] + int_sum(s.drop_first())
    }
}

/// The eaten amounts as mathematical integers.
pub open spec fn amounts_of(v: Seq<u64>) -> Seq<int> {
    v.map_values(|x: u64| x as int)
}

/// The quote amount a fill moves: proportional to the maker's own price.
/// Rounding keeps the maker's remaining price priority: down when the maker
/// is a bid (its remaining price may only rise), up when the maker is an ask
/// (its remaining price may only fall), so a partially filled best order
/// stays correctly placed at the front of its book.
pub open spec fn fill_quote(maker_side: Side, o: BookSideOrder, eaten: int, lot: int) -> int {
    let lots_eaten = eaten / lot;
    let maker_lots = (o.base_amount as int) / lot;
    match maker_side {
        Side::Bid => ((o.quote_amount as int) * lots_eaten) / maker_lots,
        Side::Ask => ((o.quote_amount as int) * lots_eaten + maker_lots - 1) / maker_lots,
    }
}

/// The Fill event recorded for one matched opposing order.
pub open spec fn fill_event_params(
    maker_side: Side,
    o: BookSideOrder,
    eaten: int,
    lot: int,
) -> EventParams {
    EventParams {
        order_id: o.order_id,
        maker: o.order_authority,
        side: maker_side,
        event_type: EventType::Fill,
        base_amount: eaten as u64,
        quote_amount: fill_quote(maker_side, o, eaten, lot) as u64,
    }
}

/// The Out event recorded when a full book evicts its worst-priced order:
/// the order's entire remaining amounts, owed back to its owner.
pub open spec fn out_event_params(o: BookSideOrder, taker_side: Side) -> EventParams {
    EventParams {
        order_id: o.order_id,
        maker: o.order_authority,
        side: taker_side,
        event_type: EventType::Out,
        base_amount: o.base_amount,
        quote_amount: o.quote_amount,
    }
}

/// The quote commitment a partially executed taker rests with: the share of
/// its original commitment proportional to the lots still open, rounded
/// down.
pub open spec fn resting_quote(args: PlaceOrderArgs, remaining: int, lot: int) -> int {
    ((args.quote_amount as int) * (remaining / lot)) / (args.base_lots as int)
}

/// Appending an amount adds it to the total.
pub proof fn lemma_int_sum_push(s: Seq<int>, x: int)
    ensures
        int_sum(s.push(x)) == int_sum(s) + x,
    decreases s.len(),
{
    let p = s.push(x);
    assert(int_sum(p) == p[0] + int_sum(p.drop_first()));
    if s.len() == 0 {
        assert(p.drop_first() =~= Seq::<int>::empty());
        assert(p[0] == x);
    } else {
        lemma_int_sum_push(s.drop_first(), x);
        assert(p.drop_first() =~= s.drop_first().push(x));
        assert(p[0] == s[0]);
        assert(int_sum(s) == s[0] + int_sum(s.drop_first()));
    }
}

/// The eaten amounts sum to the base taken off the opposing book: every
/// matched order but the last gives up everything it has.
pub proof fn lemma_eaten_sum(ob: Seq<BookSideOrder>, es: Seq<int>, m: int)
    requires
        1 <= m <= ob.len(),
        es.len() == m,
        forall|k: int| 0 <= k < m - 1 ==> es[k] == (#[trigger] ob[k]).base_amount,
    ensures
        int_sum(es) == base_amount_sum(ob.take(m)) - ob[m - 1].base_amount + es[m - 1],
    decreases m,
{
    if m == 1 {
        assert(int_sum(es) == es[0] + int_sum(es.drop_first()));
        assert(es.drop_first() =~= Seq::<int>::empty());
        let t = ob.take(1);
        assert(base_amount_sum(t) == t[0].base_amount + base_amount_sum(t.drop_first()));
        assert(t.drop_first() =~= Seq::<BookSideOrder>::empty());
    } else {
        lemma_eaten_sum(ob.drop_first(), es.drop_first(), m - 1);
        assert(int_sum(es) == es[0] + int_sum(es.drop_first()));
        let t = ob.take(m);
        assert(base_amount_sum(t) == t[0].base_amount + base_amount_sum(t.drop_first()));
        assert(t.drop_first() =~= ob.drop_first().take(m - 1));
        assert(es[0] == ob[0].base_amount);
        assert forall|k: int| 0 <= k < m - 2 implies es.drop_first()[k] == (#[trigger] ob.drop_first()[k]).base_amount by {
            assert(es.drop_first()[k] == es[k + 1]);
            assert(ob.drop_first()[k] == ob[k + 1]);
        }
        assert(es.drop_first()[m - 2] == es[m - 1]);
        assert(ob.drop_first()[m - 2] == ob[m - 1]);
    }
}

/// The difference of two lot-exact amounts is lot-exact.
pub proof fn lemma_mod_diff_zero(a: int, b: int, d: int)
    requires
        d >= 1,
        0 <= b <= a,
        a % d == 0,
        b % d == 0,
    ensures
        (a - b) % d == 0,
{
    lemma_fundamental_div_mod(a, d);
    lemma_fundamental_div_mod(b, d);
    let x = a / d;
    let y = b / d;
    assert(a - b == d * x - d * y);
    assert(d * x - d * y == (x - y) * d) by (nonlinear_arith);
    lemma_mod_multiples_basic(x - y, d);
}

/// A lot-exact positive amount holds at least one lot, and dividing by the
/// lot size recovers it exactly.
pub proof fn lemma_lot_exact(a: int, lot: int)
    requires
        lot >= 1,
        a >= 1,
        a % lot == 0,
    ensures
        a >= lot,
        a / lot >= 1,
        (a / lot) * lot == a,
{
    lemma_fundamental_div_mod(a, lot);
    assert(a == lot * (a / lot));
    assert(lot * (a / lot) == (a / lot) * lot) by (nonlinear_arith);
    if a / lot < 1 {
        assert(a / lot <= 0);
        assert(lot * (a / lot) <= 0) by (nonlinear_arith)
            requires
                lot >= 1,
                a / lot <= 0,
        ;
    }
    assert(a / lot >= 1);
    assert((a / lot) * lot >= lot) by (nonlinear_arith)
        requires
            a / lot >= 1,
            lot >= 1,
    ;
}

/// Bounds on a fill quote: it never exceeds the maker's total quote, and it
/// errs on the side that preserves the maker's remaining price priority
/// (low for a bid maker, high for an ask maker).
pub proof fn lemma_fill_quote_bounds(maker_side: Side, o: BookSideOrder, eaten: int, lot: int)
    requires
        lot >= 1,
        o.base_amount >= 1,
        (o.base_amount as int) % lot == 0,
        1 <= eaten <= o.base_amount,
        eaten % lot == 0,
    ensures
        0 <= fill_quote(maker_side, o, eaten, lot) <= o.quote_amount,
        maker_side == Side::Bid ==> fill_quote(maker_side, o, eaten, lot) * (o.base_amount as int)
            <= (o.quote_amount as int) * eaten,
        maker_side == Side::Ask ==> fill_quote(maker_side, o, eaten, lot) * (o.base_amount as int)
            >= (o.quote_amount as int) * eaten,
        eaten == o.base_amount ==> fill_quote(maker_side, o, eaten, lot) == o.quote_amount,
{
    let q = o.quote_amount as int;
    let le = eaten / lot;
    let ml = (o.base_amount as int) / lot;
    lemma_lot_exact(eaten, lot);
    lemma_lot_exact(o.base_amount as int, lot);
    lemma_div_is_ordered(eaten, o.base_amount as int, lot);
    assert(1 <= le <= ml);
    assert(q * le <= q * ml) by (nonlinear_arith)
        requires
            le <= ml,
            q >= 0,
    ;
    assert(q * le >= 0) by (nonlinear_arith)
        requires
            q >= 0,
            le >= 1,
    ;
    match maker_side {
        Side::Bid => {
            let fq = (q * le) / ml;
            // fq <= q
            lemma_div_is_ordered(q * le, q * ml, ml);
            assert(q * ml == ml * q) by (nonlinear_arith);
            lemma_div_multiples_vanish(q, ml);
            // fq * o.base_amount <= q * eaten
            lemma_fundamental_div_mod(q * le, ml);
            assert(ml * fq <= q * le);
            assert(fq * (o.base_amount as int) <= q * eaten) by (nonlinear_arith)
                requires
                    ml * fq <= q * le,
                    (o.base_amount as int) == ml * lot,
                    eaten == le * lot,
                    lot >= 1,
            ;
            lemma_div_pos(q * le, ml);
            if eaten == o.base_amount {
                assert(le == ml);
                assert(q * le == ml * q) by (nonlinear_arith)
                    requires
                        le == ml,
                ;
                lemma_div_multiples_vanish(q, ml);
            }
        },
        Side::Ask => {
            let fq = (q * le + ml - 1) / ml;
            // fq <= q
            assert(q * le + ml - 1 <= q * ml + ml - 1) by (nonlinear_arith)
                requires
                    q * le <= q * ml,
            ;
            lemma_div_is_ordered(q * le + ml - 1, q * ml + ml - 1, ml);
            assert(q * ml + ml - 1 == ml * q + (ml - 1)) by (nonlinear_arith);
            lemma_div_multiples_vanish_fancy(q, ml - 1, ml);
            // fq * o.base_amount >= q * eaten
            lemma_fundamental_div_mod(q * le + ml - 1, ml);
            let r = (q * le + ml - 1) % ml;
            assert(0 <= r < ml);
            assert(ml * fq == q * le + ml - 1 - r);
            assert(ml * fq >= q * le);
            assert(fq * (o.base_amount as int) >= q * eaten) by (nonlinear_arith)
                requires
                    ml * fq >= q * le,
                    (o.base_amount as int) == ml * lot,
                    eaten == le * lot,
                    lot >= 1,
            ;
            lemma_div_pos(q * le + ml - 1, ml);
            if eaten == o.base_amount {
                assert(le == ml);
                assert(q * le + ml - 1 == ml * q + (ml - 1)) by (nonlinear_arith)
                    requires
                        le == ml,
                ;
                lemma_div_multiples_vanish_fancy(q, ml - 1, ml);
            }
        },
    }
}

/// A nonnegative numerator divided by a positive denominator is nonnegative.
proof fn lemma_div_pos(x: int, d: int)
    requires
        x >= 0,
        d >= 1,
    ensures
        x / d >= 0,
{
    lemma_fundamental_div_mod(x, d);
    assert(x == d * (x / d) + (x % d));
    if x / d < 0 {
        assert(d * (x / d) <= -d) by (nonlinear_arith)
            requires
                d >= 1,
                x / d <= -1,
        ;
    }
}

/// A partial fill leaves the edited best order with price priority over its
/// successor: the rounding direction of the fill quote moves the maker's
/// remaining price only toward the front of its book.
pub proof fn lemma_partial_fill_keeps_priority(
    maker_side: Side,
    o: BookSideOrder,
    next: BookSideOrder,
    eaten: int,
    lot: int,
)
    requires
        lot >= 1,
        o.base_amount >= 1,
        (o.base_amount as int) % lot == 0,
        1 <= eaten < o.base_amount,
        eaten % lot == 0,
        next.base_amount >= 1,
        price_at_least(maker_side, o, next),
    ensures
        price_at_least(
            maker_side,
            with_amounts(
                o,
                (o.base_amount - eaten) as u64,
                (o.quote_amount - fill_quote(maker_side, o, eaten, lot)) as u64,
            ),
            next,
        ),
{
    lemma_fill_quote_bounds(maker_side, o, eaten, lot);
    let fq = fill_quote(maker_side, o, eaten, lot);
    let q = o.quote_amount as int;
    let b = o.base_amount as int;
    let edited = with_amounts(o, (b - eaten) as u64, (q - fq) as u64);
    assert(edited.base_amount == b - eaten && edited.quote_amount == q - fq);
    match maker_side {
        Side::Bid => {
            // The edited order is priced at least as high as the original.
            assert((q - fq) * b >= q * (b - eaten)) by (nonlinear_arith)
                requires
                    fq * b <= q * eaten,
            ;
            lemma_price_at_least_trans(maker_side, edited, o, next);
        },
        Side::Ask => {
            // The edited order is priced no higher than the original.
            assert((q - fq) * b <= q * (b - eaten)) by (nonlinear_arith)
                requires
                    fq * b >= q * eaten,
            ;
            lemma_price_at_least_trans(maker_side, edited, o, next);
        },
    }
}

/// Compares a resting order's price against the taker's commitment, using
/// wide intermediates so the cross products cannot overflow.
pub fn price_compatible_exec(
    taker_side: Side,
    taker_quote: u64,
    taker_base: u64,
    o: &BookSideOrder,
) -> (r: bool)
    ensures
        r == price_compatible(taker_side, taker_quote as int, taker_base as int, *o),
{
    proof {
        lemma_mul_u64_fits_u128(o.quote_amount, taker_base);
        lemma_mul_u64_fits_u128(taker_quote, o.base_amount);
    }
    let left: u128 = (o.quote_amount as u128) * (taker_base as u128);
    let right: u128 = (taker_quote as u128) * (o.base_amount as u128);
    match taker_side {
        Side::Bid => left <= right,
        Side::Ask => left >= right,
    }
}

/// `(a * b) / c`, rounded down, for `b <= c`: never exceeds `a` and never
/// overflows.
pub fn mul_div_floor(a: u64, b: u64, c: u64) -> (r: u64)
    requires
        c >= 1,
        b <= c,
    ensures
        r == (a * b) / (c as int),
        r <= a,
{
    proof {
        lemma_mul_u64_fits_u128(a, b);
        assert((a as int) * (b as int) <= (a as int) * (c as int)) by (nonlinear_arith)
            requires
                b <= c,
                a >= 0,
        ;
        lemma_div_is_ordered((a as int) * (b as int), (a as int) * (c as int), c as int);
        assert((a as int) * (c as int) == (c as int) * (a as int)) by (nonlinear_arith);
        lemma_div_multiples_vanish(a as int, c as int);
        lemma_div_pos((a as int) * (b as int), c as int);
    }
    let wide: u128 = ((a as u128) * (b as u128)) / (c as u128);
    wide as u64
}

/// `(a * b + c - 1) / c`, rounded up, for `b <= c`: never exceeds `a` and
/// never overflows.
pub fn mul_div_ceil(a: u64, b: u64, c: u64) -> (r: u64)
    requires
        c >= 1,
        b <= c,
    ensures
        r == ((a * b) + c - 1) / (c as int),
        r <= a,
{
    proof {
        lemma_mul_u64_fits_u128(a, b);
        assert((a as int) * (b as int) + (c as int) <= u128::MAX) by (nonlinear_arith)
            requires
                a <= u64::MAX,
                b <= u64::MAX,
                c <= u64::MAX,
        ;
        assert((a as int) * (b as int) + (c as int) - 1 <= (a as int) * (c as int) + (c as int)
            - 1) by (nonlinear_arith)
            requires
                b <= c,
                a >= 0,
        ;
        lemma_div_is_ordered(
            (a as int) * (b as int) + (c as int) - 1,
            (a as int) * (c as int) + (c as int) - 1,
            c as int,
        );
        assert((a as int) * (c as int) + (c as int) - 1 == (c as int) * (a as int) + ((
        c as int) - 1)) by (nonlinear_arith);
        lemma_div_multiples_vanish_fancy(a as int, c as int - 1, c as int);
        assert((a as int) * (b as int) >= 0) by (nonlinear_arith)
            requires
                a >= 0,
                b >= 0,
        ;
        lemma_div_pos((a as int) * (b as int) + (c as int) - 1, c as int);
    }
    let wide: u128 = ((a as u128) * (b as u128) + (c as u128) - 1) / (c as u128);
    wide as u64
}

/// Computes a fill quote exactly as `fill_quote` specifies, without
/// overflow.
pub fn fill_quote_exec(maker_side: Side, o: &BookSideOrder, eaten: u64, lot: u64) -> (r: u64)
    requires
        lot >= 1,
        o.base_amount >= 1,
        o.base_amount % lot == 0,
        1 <= eaten <= o.base_amount,
        eaten % lot == 0,
    ensures
        r == fill_quote(maker_side, *o, eaten as int, lot as int),
        r <= o.quote_amount,
        eaten == o.base_amount ==> r == o.quote_amount,
{
    proof {
        lemma_fill_quote_bounds(maker_side, *o, eaten as int, lot as int);
        lemma_lot_exact(eaten as int, lot as int);
        lemma_lot_exact(o.base_amount as int, lot as int);
        lemma_div_is_ordered(eaten as int, o.base_amount as int, lot as int);
    }
    let lots_eaten = eaten / lot;
    let maker_lots = o.base_amount / lot;
    match maker_side {
        Side::Bid => mul_div_floor(o.quote_amount, lots_eaten, maker_lots),
        Side::Ask => mul_div_ceil(o.quote_amount, lots_eaten, maker_lots),
    }
}


/// The Fill events a placement appends, in walk order, with the ids the
/// log will assign them.
pub open spec fn fill_events_of(
    maker_side: Side,
    ob: Seq<BookSideOrder>,
    es: Seq<int>,
    lot: int,
    total0: u64,
) -> Seq<Event> {
    Seq::new(
        es.len(),
        |j: int| event_of(fill_event_params(maker_side, ob[j], es[j], lot), (total0 + 1 + j) as u64),
    )
}

/// Which check a placement fails on, in the order the checks run: the
/// custody snapshot must cover what the taker will transfer, the event log
/// must admit every event the call would produce, and an
/// immediate-or-cancel order must have been fully filled by the walk.
pub open spec fn place_failure(
    market: Market,
    taker: BookSide,
    opp: BookSide,
    ev: MarketEvents,
    available_balance: u64,
    args: PlaceOrderArgs,
) -> Option<ClobbyProgramError> {
    let lot = market.base_lot_size as int;
    let tb = args.base_lots as int * lot;
    let tq = args.quote_amount as int;
    let es = match_amounts(opp.live_orders(), tb, args.side, tq, tb, MAX_ORDERS_TO_MATCH as nat);
    let rem = tb - int_sum(es);
    let n = es.len() + (if rem > 0 { 1int } else { 0int });
    let needed = match args.side {
        Side::Bid => args.quote_amount as int,
        Side::Ask => tb,
    };
    if needed > available_balance {
        Some(ClobbyProgramError::InSufficientBalance)
    } else if ev.events_to_process + n + EVENT_SAFETY_MARGIN > EVENT_CAPACITY {
        Some(ClobbyProgramError::EventsMaxLimit)
    } else if args.ioc && rem > 0 {
        Some(ClobbyProgramError::OrderFilledPartially)
    } else {
        None
    }
}

/// Everything a successful placement does to the four pieces of market
/// state, stated from the pre-call values alone.  Marked opaque so callers
/// that only hand the fact along need not unfold it; `reveal` it to read
/// the post-state out.
#[verifier::opaque]
pub open spec fn place_ok_post(
    caller: AccountId,
    market_pre: Market,
    market_post: Market,
    taker_pre: BookSide,
    taker_post: BookSide,
    opp_pre: BookSide,
    opp_post: BookSide,
    ev_pre: MarketEvents,
    ev_post: MarketEvents,
    args: PlaceOrderArgs,
    outcome: PlaceOrderOutcome,
) -> bool {
    let lot = market_pre.base_lot_size as int;
    let tb = args.base_lots as int * lot;
    let tq = args.quote_amount as int;
    let maker_side = opposite_side(args.side);
    let ob = opp_pre.live_orders();
    let es = match_amounts(ob, tb, args.side, tq, tb, MAX_ORDERS_TO_MATCH as nat);
    let m = es.len() as int;
    let filled = int_sum(es);
    let rem = tb - filled;
    let partial = m > 0 && es.last() < ob[m - 1].base_amount;
    let d = if partial { m - 1 } else { m };
    let edited = with_amounts(
        ob[d],
        (ob[d].base_amount - es[d]) as u64,
        (ob[d].quote_amount - fill_quote(maker_side, ob[d], es[d], lot)) as u64,
    );
    let fill_evs = fill_events_of(maker_side, ob, es, lot, ev_pre.total_events_count);
    let evicted = rem > 0 && taker_pre.order_count == BOOK_SIDE_CAPACITY;
    let tl = if evicted {
        taker_pre.live_orders().drop_last()
    } else {
        taker_pre.live_orders()
    };
    let out_evs = if evicted {
        seq![event_of(
            out_event_params(taker_pre.live_orders().last(), args.side),
            (ev_pre.total_events_count + 1 + m) as u64,
        )]
    } else {
        Seq::<Event>::empty()
    };
    let new_order = BookSideOrder {
        order_id: (market_pre.total_orders + 1) as u64,
        base_amount: rem as u64,
        quote_amount: resting_quote(args, rem, lot) as u64,
        order_authority: caller,
    };
    &&& opp_post.live_orders() == (if partial {
        seq![edited] + ob.skip(m)
    } else {
        ob.skip(m)
    })
    &&& opp_post.order_count as int == opp_pre.order_count as int - d
    &&& opp_post.side == opp_pre.side
    &&& opp_post.market_account == opp_pre.market_account
    &&& ev_post.live_events() == ev_pre.live_events() + fill_evs + out_evs
    &&& ev_post.events_to_process as int == ev_pre.events_to_process as int + m
        + out_evs.len()
    &&& ev_post.total_events_count as int == ev_pre.total_events_count as int + m
        + out_evs.len()
    &&& ev_post.market == ev_pre.market
    &&& if rem == 0 {
        &&& outcome == PlaceOrderOutcome::FullyExecuted
        &&& taker_post == taker_pre
        &&& market_post == market_pre
    } else {
        &&& outcome == PlaceOrderOutcome::Resting((market_pre.total_orders + 1) as u64)
        &&& market_post == (Market {
            total_orders: (market_pre.total_orders + 1) as u64,
            ..market_pre
        })
        &&& taker_post.live_orders() == tl.insert(
            insert_position(args.side, tl, new_order),
            new_order,
        )
        &&& taker_post.order_count as int == tl.len() + 1
        &&& taker_post.side == taker_pre.side
        &&& taker_post.market_account == taker_pre.market_account
    }
    // Conservation: the base tracked by the two books and the unconsumed
    // events grows by exactly the amount that newly rests, and by nothing
    // else.
    &&& base_amount_sum(opp_post.live_orders()) + base_amount_sum(taker_post.live_orders())
        + event_base_sum(ev_post.live_events()) == base_amount_sum(ob) + base_amount_sum(
        taker_pre.live_orders(),
    ) + event_base_sum(ev_pre.live_events()) + (if rem == 0 {
        0int
    } else {
        rem
    })
}

/// Order placement against a fixed taker/opposing book pair; `place_order`
/// picks the pair by the side tag.  Walks the opposing book from the best
/// price, collecting up to `MAX_ORDERS_TO_MATCH` price-compatible fills,
/// then checks event-log admission and the immediate-or-cancel condition
/// before mutating anything, and finally applies the fills, compacts the
/// opposing book, and rests or fully executes the remainder.
#[verifier::rlimit(100)]
pub fn place_order_core(
    caller: AccountId,
    market: &mut Market,
    taker_book: &mut BookSide,
    opposing_book: &mut BookSide,
    market_events: &mut MarketEvents,
    available_balance: u64,
    args: PlaceOrderArgs,
) -> (r: Result<PlaceOrderOutcome, ClobbyProgramError>)
    requires
        old(taker_book).wf(),
        old(opposing_book).wf(),
        old(market_events).wf(),
        old(taker_book).side == side_tag(args.side),
        old(opposing_book).side == side_tag(opposite_side(args.side)),
        market_book_wf(*old(market), *old(taker_book)),
        market_book_wf(*old(market), *old(opposing_book)),
        old(market).base_lot_size >= 1,
        args.base_lots >= 1,
        args.base_lots as int * old(market).base_lot_size as int <= u64::MAX,
        old(market).total_orders < u64::MAX,
        old(market_events).total_events_count as int + 8 <= u64::MAX,
    ensures
        final(taker_book).wf(),
        final(opposing_book).wf(),
        final(market_events).wf(),
        market_book_wf(*final(market), *final(taker_book)),
        market_book_wf(*final(market), *final(opposing_book)),
        r is Err ==> *final(market) == *old(market) && *final(taker_book) == *old(taker_book)
            && *final(opposing_book) == *old(opposing_book) && *final(market_events) == *old(
            market_events,
        ),
        match place_failure(
            *old(market),
            *old(taker_book),
            *old(opposing_book),
            *old(market_events),
            available_balance,
            args,
        ) {
            Some(e) => r == Err::<PlaceOrderOutcome, _>(e),
            None => r is Ok,
        },
        r matches Ok(outcome) ==> place_ok_post(
            caller,
            *old(market),
            *final(market),
            *old(taker_book),
            *final(taker_book),
            *old(opposing_book),
            *final(opposing_book),
            *old(market_events),
            *final(market_events),
            args,
            outcome,
        ),
{
    let lot = market.base_lot_size;
    let base_amount: u64 = (args.base_lots as u64) * lot;
    let ghost lot_i = lot as int;
    let ghost tb = base_amount as int;
    let ghost tq = args.quote_amount as int;
    let ghost ob = opposing_book.live_orders();

    // Balance check against the custody snapshot, before anything else.
    let needed = match args.side {
        Side::Bid => args.quote_amount,
        Side::Ask => base_amount,
    };
    if needed > available_balance {
        return Err(ClobbyProgramError::InSufficientBalance);
    }

    // Walk the opposing book from the best price, collecting the fills.
    let (fills, remaining) = compute_fills(market, opposing_book, args, base_amount);
    let m = fills.len();
    let ghost es = amounts_of(fills@);
    let ghost rem = tb - int_sum(es);
    proof {
        assert(es == match_amounts(ob, tb, args.side, tq, tb, MAX_ORDERS_TO_MATCH as nat));
        assert(rem == remaining as int);
    }

    // Admission check: every event this call would produce must fit.
    let n_events = if remaining > 0 {
        m + 1
    } else {
        m
    };
    if !market_events.can_add_event(n_events) {
        return Err(ClobbyProgramError::EventsMaxLimit);
    }

    // Immediate-or-cancel: reject a partial fill before mutating anything.
    if args.ioc && remaining > 0 {
        return Err(ClobbyProgramError::OrderFilledPartially);
    }

    let ghost partial = m > 0 && es.last() < ob[m - 1].base_amount;
    let d = if m > 0 && fills[m - 1] < opposing_book.orders[m - 1].base_amount {
        m - 1
    } else {
        m
    };
    proof {
        if m > 0 {
            assert(opposing_book.orders@[m - 1] == ob[m - 1]);
        }
        assert(d as int == if partial { m as int - 1 } else { m as int });
        if partial {
            assert(fills@[m - 1] != ob[m - 1].base_amount);
            assert(remaining == 0);
        }
    }
    apply_and_finish(caller, market, taker_book, opposing_book, market_events, &fills, d, remaining, args)
}

/// Assembles `place_ok_post` for a placement that fully executed: the
/// opposing book and the event log carry the fills, and the taker book and
/// the market are untouched.
proof fn lemma_place_ok_post_fully_executed(
    caller: AccountId,
    market: Market,
    taker: BookSide,
    opp_pre: BookSide,
    opp_post: BookSide,
    ev_pre: MarketEvents,
    ev_post: MarketEvents,
    args: PlaceOrderArgs,
)
    requires
        ({
            let lot = market.base_lot_size as int;
            let tb = args.base_lots as int * lot;
            let tq = args.quote_amount as int;
            let ob = opp_pre.live_orders();
            let es = match_amounts(ob, tb, args.side, tq, tb, MAX_ORDERS_TO_MATCH as nat);
            let m = es.len() as int;
            let maker_side = opposite_side(args.side);
            let partial = m > 0 && es.last() < ob[m - 1].base_amount;
            let d = if partial {
                m - 1
            } else {
                m
            };
            let edited = with_amounts(
                ob[d],
                (ob[d].base_amount - es[d]) as u64,
                (ob[d].quote_amount - fill_quote(maker_side, ob[d], es[d], lot)) as u64,
            );
            let fill_evs = fill_events_of(maker_side, ob, es, lot, ev_pre.total_events_count);
            &&& tb - int_sum(es) == 0
            &&& opp_post.live_orders() == (if partial {
                seq![edited] + ob.skip(m)
            } else {
                ob.skip(m)
            })
            &&& opp_post.order_count as int == opp_pre.order_count as int - d
            &&& opp_post.side == opp_pre.side
            &&& opp_post.market_account == opp_pre.market_account
            &&& ev_post.live_events() == ev_pre.live_events() + fill_evs
            &&& ev_post.events_to_process as int == ev_pre.events_to_process as int + m
            &&& ev_post.total_events_count as int == ev_pre.total_events_count as int + m
            &&& ev_post.market == ev_pre.market
            &&& base_amount_sum(opp_post.live_orders()) == base_amount_sum(ob) - int_sum(es)
            &&& event_base_sum(ev_post.live_events()) == event_base_sum(ev_pre.live_events())
                + int_sum(es)
        }),
    ensures
        place_ok_post(
            caller,
            market,
            market,
            taker,
            taker,
            opp_pre,
            opp_post,
            ev_pre,
            ev_post,
            args,
            PlaceOrderOutcome::FullyExecuted,
        ),
{
    reveal(place_ok_post);
    let ob = opp_pre.live_orders();
    let lot = market.base_lot_size as int;
    let tb = args.base_lots as int * lot;
    let tq = args.quote_amount as int;
    let es = match_amounts(ob, tb, args.side, tq, tb, MAX_ORDERS_TO_MATCH as nat);
    let m = es.len() as int;
    let fill_evs = fill_events_of(
        opposite_side(args.side),
        ob,
        es,
        lot,
        ev_pre.total_events_count,
    );
    assert(ev_pre.live_events() + fill_evs + Seq::<Event>::empty() =~= ev_pre.live_events()
        + fill_evs);
}

/// Assembles `place_ok_post` for a placement whose remainder rested: the
/// opposing book and the event log carry the fills, and the taker book, the
/// market counter and possibly an eviction event carry the rest.
proof fn lemma_place_ok_post_resting(
    caller: AccountId,
    market_pre: Market,
    market_post: Market,
    taker_pre: BookSide,
    taker_post: BookSide,
    opp_pre: BookSide,
    opp_post: BookSide,
    ev_pre: MarketEvents,
    ev_mid: MarketEvents,
    ev_post: MarketEvents,
    args: PlaceOrderArgs,
    order_id: u64,
)
    requires
        ({
            let lot = market_pre.base_lot_size as int;
            let tb = args.base_lots as int * lot;
            let tq = args.quote_amount as int;
            let ob = opp_pre.live_orders();
            let es = match_amounts(ob, tb, args.side, tq, tb, MAX_ORDERS_TO_MATCH as nat);
            let m = es.len() as int;
            let rem = tb - int_sum(es);
            let fill_evs = fill_events_of(
                opposite_side(args.side),
                ob,
                es,
                lot,
                ev_pre.total_events_count,
            );
            let evicted = taker_pre.order_count == BOOK_SIDE_CAPACITY;
            let tl = if evicted {
                taker_pre.live_orders().drop_last()
            } else {
                taker_pre.live_orders()
            };
            let out_evs = if evicted {
                seq![event_of(
                    out_event_params(taker_pre.live_orders().last(), args.side),
                    (ev_pre.total_events_count + 1 + m) as u64,
                )]
            } else {
                Seq::<Event>::empty()
            };
            let new_order = BookSideOrder {
                order_id: (market_pre.total_orders + 1) as u64,
                base_amount: rem as u64,
                quote_amount: resting_quote(args, rem, lot) as u64,
                order_authority: caller,
            };
            &&& rem > 0
            &&& !(m > 0 && es.last() < ob[m - 1].base_amount)
            &&& opp_post.live_orders() == ob.skip(m)
            &&& opp_post.order_count as int == opp_pre.order_count as int - m
            &&& opp_post.side == opp_pre.side
            &&& opp_post.market_account == opp_pre.market_account
            &&& ev_mid.live_events() == ev_pre.live_events() + fill_evs
            &&& ev_mid.events_to_process as int == ev_pre.events_to_process as int + m
            &&& ev_mid.total_events_count as int == ev_pre.total_events_count as int + m
            &&& ev_mid.market == ev_pre.market
            &&& base_amount_sum(opp_post.live_orders()) == base_amount_sum(ob) - int_sum(es)
            &&& event_base_sum(ev_mid.live_events()) == event_base_sum(ev_pre.live_events())
                + int_sum(es)
            &&& order_id == market_pre.total_orders + 1
            &&& market_post == (Market { total_orders: order_id, ..market_pre })
            &&& taker_post.live_orders() == tl.insert(
                insert_position(args.side, tl, new_order),
                new_order,
            )
            &&& taker_post.order_count as int == tl.len() + 1
            &&& taker_post.side == taker_pre.side
            &&& taker_post.market_account == taker_pre.market_account
            &&& ev_post.live_events() == ev_pre.live_events() + fill_evs + out_evs
            &&& ev_post.events_to_process as int == ev_pre.events_to_process as int + m
                + out_evs.len()
            &&& ev_post.total_events_count as int == ev_pre.total_events_count as int + m
                + out_evs.len()
            &&& ev_post.market == ev_pre.market
            &&& base_amount_sum(taker_post.live_orders()) + event_base_sum(ev_post.live_events())
                == base_amount_sum(taker_pre.live_orders()) + event_base_sum(
                ev_mid.live_events(),
            ) + rem
        }),
    ensures
        place_ok_post(
            caller,
            market_pre,
            market_post,
            taker_pre,
            taker_post,
            opp_pre,
            opp_post,
            ev_pre,
            ev_post,
            args,
            PlaceOrderOutcome::Resting(order_id),
        ),
{
    reveal(place_ok_post);
}

/// Applies a validated placement: records the fills, rewrites the opposing
/// book, and rests or fully executes the remainder.  Runs only after every
/// admission check has passed.
#[verifier::rlimit(100)]
fn apply_and_finish(
    caller: AccountId,
    market: &mut Market,
    taker_book: &mut BookSide,
    opposing_book: &mut BookSide,
    market_events: &mut MarketEvents,
    fills: &Vec<u64>,
    d: usize,
    remaining: u64,
    args: PlaceOrderArgs,
) -> (r: Result<PlaceOrderOutcome, ClobbyProgramError>)
    requires
        ({
            let lot = old(market).base_lot_size as int;
            let tb = args.base_lots as int * lot;
            let tq = args.quote_amount as int;
            let ob = old(opposing_book).live_orders();
            let es = match_amounts(ob, tb, args.side, tq, tb, MAX_ORDERS_TO_MATCH as nat);
            let m = fills@.len() as int;
            let partial = m > 0 && fills@[m - 1] < ob[m - 1].base_amount;
            &&& old(taker_book).wf()
            &&& old(opposing_book).wf()
            &&& old(market_events).wf()
            &&& old(taker_book).side == side_tag(args.side)
            &&& old(opposing_book).side == side_tag(opposite_side(args.side))
            &&& market_book_wf(*old(market), *old(taker_book))
            &&& market_book_wf(*old(market), *old(opposing_book))
            &&& old(market).base_lot_size >= 1
            &&& args.base_lots >= 1
            &&& tb <= u64::MAX
            &&& old(market).total_orders < u64::MAX
            &&& old(market_events).total_events_count as int + 8 <= u64::MAX
            &&& es == amounts_of(fills@)
            &&& m <= MAX_ORDERS_TO_MATCH
            &&& m <= ob.len()
            &&& forall|k: int| 0 <= k < m ==> 1 <= #[trigger] fills@[k] <= ob[k].base_amount
            &&& forall|k: int| 0 <= k < m ==> (#[trigger] fills@[k]) as int % lot == 0
            &&& forall|k: int| 0 <= k < m - 1 ==> (#[trigger] fills@[k]) == ob[k].base_amount
            &&& remaining as int == tb - int_sum(es)
            &&& remaining as int <= tb
            &&& (remaining as int) % lot == 0
            &&& (partial ==> remaining == 0)
            &&& d as int == (if partial {
                m - 1
            } else {
                m
            })
            &&& old(market_events).events_to_process as int + m + (if remaining > 0 {
                1int
            } else {
                0int
            }) + EVENT_SAFETY_MARGIN <= EVENT_CAPACITY
        }),
    ensures
        final(taker_book).wf(),
        final(opposing_book).wf(),
        final(market_events).wf(),
        market_book_wf(*final(market), *final(taker_book)),
        market_book_wf(*final(market), *final(opposing_book)),
        r is Ok,
        r matches Ok(outcome) ==> place_ok_post(
            caller,
            *old(market),
            *final(market),
            *old(taker_book),
            *final(taker_book),
            *old(opposing_book),
            *final(opposing_book),
            *old(market_events),
            *final(market_events),
            args,
            outcome,
        ),
{
    let lot = market.base_lot_size;
    let ghost lot_i = lot as int;
    let ghost ob = opposing_book.live_orders();
    let ghost es = amounts_of(fills@);
    let m = fills.len();
    let ghost partial = m > 0 && es.last() < ob[m - 1].base_amount;
    let ghost ev0 = *market_events;
    let ghost opp0 = *opposing_book;
    let ghost fill_evs = fill_events_of(
        opposite_side(args.side),
        ob,
        es,
        lot_i,
        ev0.total_events_count,
    );
    proof {
        assert(partial == (m > 0 && fills@[m as int - 1] < ob[m as int - 1].base_amount));
    }

    // Record the fills in the event log and rewrite the opposing book.
    apply_fills(market, opposing_book, market_events, fills, d, args);

    // Rest the remainder, evicting the worst-priced order if the book is
    // full; or report full execution.
    if remaining > 0 {
        proof {
            assert(!partial);
            assert(d == m);
            assert(fill_evs.len() == m);
        }
        let ghost taker0 = *taker_book;
        let ghost ev_mid = *market_events;
        let order_id = rest_remainder(
            caller,
            market,
            taker_book,
            market_events,
            remaining,
            lot,
            args,
            Ghost(ev0),
            Ghost(fill_evs),
            Ghost(m as int),
        );
        proof {
            lemma_place_ok_post_resting(
                caller,
                *old(market),
                *market,
                taker0,
                *taker_book,
                opp0,
                *opposing_book,
                ev0,
                ev_mid,
                *market_events,
                args,
                order_id,
            );
        }
        Ok(PlaceOrderOutcome::Resting(order_id))
    } else {
        proof {
            lemma_place_ok_post_fully_executed(
                caller,
                *old(market),
                *taker_book,
                opp0,
                *opposing_book,
                ev0,
                *market_events,
                args,
            );
        }
        Ok(PlaceOrderOutcome::FullyExecuted)
    }
}

/// The matching walk: reads the opposing book from the best price and
/// returns the base amount each matched order gives up, together with the
/// taker's remaining base.  Nothing is mutated.
fn compute_fills(
    market: &Market,
    opposing_book: &BookSide,
    args: PlaceOrderArgs,
    base_amount: u64,
) -> (r: (Vec<u64>, u64))
    requires
        opposing_book.wf(),
        market_book_wf(*market, *opposing_book),
        market.base_lot_size >= 1,
        args.base_lots >= 1,
        base_amount == args.base_lots as int * market.base_lot_size as int,
    ensures
        ({
            let lot = market.base_lot_size as int;
            let tb = base_amount as int;
            let tq = args.quote_amount as int;
            let ob = opposing_book.live_orders();
            let es = match_amounts(ob, tb, args.side, tq, tb, MAX_ORDERS_TO_MATCH as nat);
            &&& amounts_of(r.0@) == es
            &&& r.0@.len() <= MAX_ORDERS_TO_MATCH
            &&& r.0@.len() <= ob.len()
            &&& r.1 <= base_amount
            &&& r.1 as int == tb - int_sum(es)
            &&& (r.1 as int) % lot == 0
            &&& forall|k: int| 0 <= k < r.0@.len() ==> 1 <= #[trigger] r.0@[k] <= ob[k].base_amount
            &&& forall|k: int| 0 <= k < r.0@.len() ==> (#[trigger] r.0@[k]) as int % lot == 0
            &&& forall|k: int|
                0 <= k < r.0@.len() ==> (#[trigger] r.0@[k]) == ob[k].base_amount || (k
                    == r.0@.len() - 1 && r.1 == 0)
        }),
{
    let lot = market.base_lot_size;
    let ghost lot_i = lot as int;
    let ghost tb = base_amount as int;
    let ghost tq = args.quote_amount as int;
    let ghost ob = opposing_book.live_orders();
    let ghost es_total = match_amounts(ob, tb, args.side, tq, tb, MAX_ORDERS_TO_MATCH as nat);
    let opp_count = opposing_book.order_count as usize;
    let mut fills: Vec<u64> = Vec::new();
    let mut remaining: u64 = base_amount;
    let mut i: usize = 0;
    let mut scanning = true;
    proof {
        lemma_mod_multiples_basic(args.base_lots as int, lot_i);
        assert(amounts_of(fills@) =~= Seq::<int>::empty());
        assert(ob.skip(0) =~= ob);
        assert(Seq::<int>::empty() + es_total =~= es_total);
        assert(ob.len() == opp_count);
    }
    while scanning
        invariant
            opposing_book.wf(),
            market_book_wf(*market, *opposing_book),
            market.base_lot_size == lot,
            lot >= 1,
            lot_i == lot as int,
            tb == base_amount as int,
            tq == args.quote_amount as int,
            ob == opposing_book.live_orders(),
            ob.len() == opp_count,
            opp_count == opposing_book.order_count,
            es_total == match_amounts(ob, tb, args.side, tq, tb, MAX_ORDERS_TO_MATCH as nat),
            i == fills@.len(),
            i <= opp_count,
            i <= MAX_ORDERS_TO_MATCH,
            remaining <= base_amount,
            remaining as int == tb - int_sum(amounts_of(fills@)),
            remaining as int % lot_i == 0,
            es_total == amounts_of(fills@) + match_amounts(
                ob.skip(i as int),
                remaining as int,
                args.side,
                tq,
                tb,
                (MAX_ORDERS_TO_MATCH - i) as nat,
            ),
            forall|k: int| 0 <= k < i ==> 1 <= #[trigger] fills@[k] <= ob[k].base_amount,
            forall|k: int| 0 <= k < i ==> (#[trigger] fills@[k]) as int % lot_i == 0,
            forall|k: int|
                0 <= k < i ==> (#[trigger] fills@[k]) == ob[k].base_amount || (k == i - 1
                    && remaining == 0),
            !scanning ==> i == opp_count || i == MAX_ORDERS_TO_MATCH || remaining == 0
                || !price_compatible(args.side, tq, tb, ob[i as int]),
        decreases opp_count - i + (if scanning { 1int } else { 0int }),
    {
        if i < opp_count && i < MAX_ORDERS_TO_MATCH && remaining > 0 {
            let o = opposing_book.orders[i];
            proof {
                assert(opposing_book.live_orders()[i as int] == opposing_book.orders@[i as int]);
                assert(o == ob[i as int]);
                assert(ob[i as int].base_amount % market.base_lot_size == 0);
                assert(o.base_amount % lot == 0);
            }
            if price_compatible_exec(args.side, args.quote_amount, base_amount, &o) {
                let eaten = if o.base_amount <= remaining {
                    o.base_amount
                } else {
                    remaining
                };
                proof {
                    let suffix = ob.skip(i as int);
                    assert(suffix[0] == ob[i as int]);
                    assert(suffix.len() > 0);
                    assert(match_amounts(
                        suffix,
                        remaining as int,
                        args.side,
                        tq,
                        tb,
                        (MAX_ORDERS_TO_MATCH - i) as nat,
                    ) == seq![eaten as int] + match_amounts(
                        suffix.drop_first(),
                        remaining as int - eaten as int,
                        args.side,
                        tq,
                        tb,
                        (MAX_ORDERS_TO_MATCH - i - 1) as nat,
                    ));
                    assert(suffix.drop_first() =~= ob.skip(i as int + 1));
                    assert(amounts_of(fills@.push(eaten)) =~= amounts_of(fills@).push(
                        eaten as int,
                    ));
                    lemma_int_sum_push(amounts_of(fills@), eaten as int);
                    assert((amounts_of(fills@).push(eaten as int)) + match_amounts(
                        ob.skip(i as int + 1),
                        remaining as int - eaten as int,
                        args.side,
                        tq,
                        tb,
                        (MAX_ORDERS_TO_MATCH - i - 1) as nat,
                    ) =~= amounts_of(fills@) + (seq![eaten as int] + match_amounts(
                        ob.skip(i as int + 1),
                        remaining as int - eaten as int,
                        args.side,
                        tq,
                        tb,
                        (MAX_ORDERS_TO_MATCH - i - 1) as nat,
                    )));
                    lemma_mod_diff_zero(remaining as int, eaten as int, lot_i);
                }
                fills.push(eaten);
                remaining = remaining - eaten;
                i = i + 1;
            } else {
                scanning = false;
            }
        } else {
            scanning = false;
        }
    }
    proof {
        if i < opp_count && i < MAX_ORDERS_TO_MATCH && remaining > 0 {
            assert(ob.skip(i as int)[0] == ob[i as int]);
        }
        assert(match_amounts(
            ob.skip(i as int),
            remaining as int,
            args.side,
            tq,
            tb,
            (MAX_ORDERS_TO_MATCH - i) as nat,
        ) =~= Seq::<int>::empty());
        assert(amounts_of(fills@) + Seq::<int>::empty() =~= amounts_of(fills@));
        assert(es_total == amounts_of(fills@));
    }
    (fills, remaining)
}

/// Applies a computed walk to the market state: records one Fill event per
/// matched order, retires the fully consumed orders (best first), and
/// rewrites the amounts of the one partially consumed order, whose rounded
/// fill quote keeps it correctly placed at the front of the book.
#[verifier::rlimit(100)]
fn apply_fills(
    market: &Market,
    opposing_book: &mut BookSide,
    market_events: &mut MarketEvents,
    fills: &Vec<u64>,
    d: usize,
    args: PlaceOrderArgs,
)
    requires
        ({
            let ob = old(opposing_book).live_orders();
            let m = fills@.len() as int;
            let partial = m > 0 && fills@[m - 1] < ob[m - 1].base_amount;
            &&& old(opposing_book).wf()
            &&& market_book_wf(*market, *old(opposing_book))
            &&& market.base_lot_size >= 1
            &&& old(opposing_book).side == side_tag(opposite_side(args.side))
            &&& m <= MAX_ORDERS_TO_MATCH
            &&& m <= ob.len()
            &&& forall|k: int| 0 <= k < m ==> 1 <= #[trigger] fills@[k] <= ob[k].base_amount
            &&& forall|k: int|
                0 <= k < m ==> (#[trigger] fills@[k]) as int % (market.base_lot_size as int) == 0
            &&& forall|k: int| 0 <= k < m - 1 ==> (#[trigger] fills@[k]) == ob[k].base_amount
            &&& d as int == (if partial {
                m - 1
            } else {
                m
            })
            &&& old(market_events).wf()
            &&& old(market_events).events_to_process as int + m + 6 <= EVENT_CAPACITY
            &&& old(market_events).total_events_count as int + 8 <= u64::MAX
        }),
    ensures
        ({
            let lot = market.base_lot_size as int;
            let maker_side = opposite_side(args.side);
            let ob = old(opposing_book).live_orders();
            let es = amounts_of(fills@);
            let m = fills@.len() as int;
            let partial = m > 0 && fills@[m - 1] < ob[m - 1].base_amount;
            let edited = with_amounts(
                ob[m - 1],
                (ob[m - 1].base_amount - es[m - 1]) as u64,
                (ob[m - 1].quote_amount - fill_quote(maker_side, ob[m - 1], es[m - 1], lot)) as u64,
            );
            let fill_evs = fill_events_of(maker_side, ob, es, lot, old(market_events).total_events_count);
            &&& final(opposing_book).wf()
            &&& final(opposing_book).side == old(opposing_book).side
            &&& final(opposing_book).market_account == old(opposing_book).market_account
            &&& final(opposing_book).order_count as int == old(opposing_book).order_count as int
                - d
            &&& final(opposing_book).live_orders() == (if partial {
                seq![edited] + ob.skip(m)
            } else {
                ob.skip(m)
            })
            &&& market_book_wf(*market, *final(opposing_book))
            &&& base_amount_sum(final(opposing_book).live_orders()) == base_amount_sum(ob)
                - int_sum(es)
            &&& final(market_events).wf()
            &&& final(market_events).market == old(market_events).market
            &&& final(market_events).live_events() == old(market_events).live_events() + fill_evs
            &&& final(market_events).events_to_process as int == old(
                market_events,
            ).events_to_process as int + m
            &&& final(market_events).total_events_count as int == old(
                market_events,
            ).total_events_count as int + m
            &&& event_base_sum(final(market_events).live_events()) == event_base_sum(
                old(market_events).live_events(),
            ) + int_sum(es)
        }),
{
    let lot = market.base_lot_size;
    let ghost lot_i = lot as int;
    let ghost ob = opposing_book.live_orders();
    let ghost es = amounts_of(fills@);
    let m = fills.len();
    let ghost partial = m > 0 && es.last() < ob[m - 1].base_amount;
    let opp_count = opposing_book.order_count as usize;
    let maker_side = match args.side {
        Side::Bid => Side::Ask,
        Side::Ask => Side::Bid,
    };
    let ghost ev0 = *market_events;
    let ghost fill_evs = fill_events_of(opposite_side(args.side), ob, es, lot_i, ev0.total_events_count);
    proof {
        assert(forall|k: int| 0 <= k < m ==> #[trigger] es[k] == fills@[k] as int);
        assert(partial == (m > 0 && fills@[m as int - 1] < ob[m as int - 1].base_amount));
        assert(market_events.live_events() =~= ev0.live_events() + fill_evs.take(0));
        assert(es.take(0) =~= Seq::<int>::empty());
        assert(ob.len() == opp_count);
    }

    // Record one Fill event per matched opposing order, reading the book
    // before it is touched.
    let mut k: usize = 0;
    while k < m
        invariant
            k <= m,
            m == fills@.len(),
            m <= opp_count,
            m <= MAX_ORDERS_TO_MATCH,
            opposing_book.wf(),
            market_book_wf(*market, *opposing_book),
            market.base_lot_size == lot,
            lot >= 1,
            lot_i == lot as int,
            ob == opposing_book.live_orders(),
            ob.len() == opp_count,
            opp_count == opposing_book.order_count,
            maker_side == opposite_side(args.side),
            forall|j: int| 0 <= j < m ==> 1 <= #[trigger] fills@[j] <= ob[j].base_amount,
            forall|j: int| 0 <= j < m ==> (#[trigger] fills@[j]) as int % lot_i == 0,
            forall|j: int| 0 <= j < m ==> #[trigger] es[j] == fills@[j] as int,
            es.len() == m,
            fill_evs == fill_events_of(opposite_side(args.side), ob, es, lot_i, ev0.total_events_count),
            market_events.wf(),
            market_events.market == ev0.market,
            market_events.events_to_process as int == ev0.events_to_process as int + k,
            market_events.total_events_count as int == ev0.total_events_count as int + k,
            market_events.live_events() == ev0.live_events() + fill_evs.take(k as int),
            event_base_sum(market_events.live_events()) == event_base_sum(ev0.live_events())
                + int_sum(es.take(k as int)),
            ev0.events_to_process as int + m + 6 <= EVENT_CAPACITY,
            ev0.total_events_count as int + 8 <= u64::MAX,
        decreases m - k,
    {
        let o = opposing_book.orders[k];
        proof {
            assert(opposing_book.live_orders()[k as int] == opposing_book.orders@[k as int]);
            assert(o == ob[k as int]);
            assert(ob[k as int].base_amount % market.base_lot_size == 0);
        }
        let eaten = fills[k];
        let fq = fill_quote_exec(maker_side, &o, eaten, lot);
        let ghost before = *market_events;
        market_events.add_event(
            EventParams {
                order_id: o.order_id,
                maker: o.order_authority,
                side: maker_side,
                event_type: EventType::Fill,
                base_amount: eaten,
                quote_amount: fq,
            },
        );
        proof {
            let e = event_of(
                fill_event_params(opposite_side(args.side), ob[k as int], es[k as int], lot_i),
                (ev0.total_events_count + 1 + k) as u64,
            );
            assert(fill_evs[k as int] == e);
            assert(market_events.live_events() =~= ev0.live_events() + fill_evs.take(
                k as int + 1,
            ));
            lemma_event_sums_push(before.live_events(), e);
            assert(es.take(k as int + 1) =~= es.take(k as int).push(es[k as int]));
            lemma_int_sum_push(es.take(k as int), es[k as int]);
        }
        k = k + 1;
    }
    proof {
        assert(fill_evs.take(m as int) =~= fill_evs);
        assert(es.take(m as int) =~= es);
    }

    // Retire the fully consumed opposing orders, best first.
    let ghost opp0 = *opposing_book;
    proof {
        assert(ob.skip(0) =~= ob);
    }
    let mut j: usize = 0;
    while j < d
        invariant
            j <= d,
            d <= m,
            m <= opp_count,
            opp_count == opp0.order_count,
            ob.len() == opp_count,
            opposing_book.wf(),
            opposing_book.side == opp0.side,
            opposing_book.market_account == opp0.market_account,
            ob == opp0.live_orders(),
            opposing_book.live_orders() == ob.skip(j as int),
            opposing_book.order_count as int == opp_count as int - j,
        decreases d - j,
    {
        opposing_book.remove_and_compact(0);
        proof {
            assert(ob.skip(j as int).remove(0) =~= ob.skip(j as int + 1));
        }
        j = j + 1;
    }

    // Edit the one partially consumed order, if any.
    if m > 0 && d == m - 1 {
        let o = opposing_book.orders[0];
        proof {
            assert(opposing_book.live_orders()[0] == opposing_book.orders@[0]);
            assert(ob.skip(d as int)[0] == ob[d as int]);
            assert(o == ob[d as int]);
            assert(ob[d as int].base_amount % market.base_lot_size == 0);
        }
        let eaten = fills[d];
        let fq = fill_quote_exec(maker_side, &o, eaten, lot);
        let new_base = o.base_amount - eaten;
        let new_quote = o.quote_amount - fq;
        proof {
            assert(crate::bookside::side_from_tag(opposing_book.side) == maker_side);
            if opposing_book.order_count >= 2 {
                assert(ob.skip(d as int)[1] == ob[d as int + 1]);
                assert(price_at_least(maker_side, ob[d as int], ob[d as int + 1]));
                lemma_partial_fill_keeps_priority(
                    maker_side,
                    ob[d as int],
                    ob[d as int + 1],
                    eaten as int,
                    lot_i,
                );
            }
        }
        opposing_book.reduce_best(new_base, new_quote);
        proof {
            let edited = with_amounts(
                ob[d as int],
                (ob[d as int].base_amount - es[d as int]) as u64,
                (ob[d as int].quote_amount - fill_quote(
                    opposite_side(args.side),
                    ob[d as int],
                    es[d as int],
                    lot_i,
                )) as u64,
            );
            assert(opposing_book.live_orders() =~= seq![edited] + ob.skip(m as int));
        }
    }
    proof {
        lemma_fill_quote_bounds_if_partial(
            partial,
            opposite_side(args.side),
            ob,
            es,
            m as int,
            lot_i,
        );
        finish_conservation(
            ob,
            es,
            m as int,
            partial,
            opposing_book.live_orders(),
            lot_i,
            opposite_side(args.side),
        );
        lemma_opp_wf_after(
            *market,
            ob,
            es,
            m as int,
            partial,
            opposing_book.live_orders(),
            lot_i,
            opposite_side(args.side),
        );
    }
}

/// Rests a partially executed taker on its own book: evicts the
/// worst-priced resting order if the book is full (recording an Out event
/// with its remaining amounts), assigns the next order id, and inserts the
/// remainder at its price position with a proportional quote commitment.
#[verifier::rlimit(100)]
fn rest_remainder(
    caller: AccountId,
    market: &mut Market,
    taker_book: &mut BookSide,
    market_events: &mut MarketEvents,
    remaining: u64,
    lot: u64,
    args: PlaceOrderArgs,
    Ghost(ev0): Ghost<MarketEvents>,
    Ghost(fill_evs): Ghost<Seq<Event>>,
    Ghost(m): Ghost<int>,
) -> (order_id: u64)
    requires
        old(taker_book).wf(),
        old(taker_book).side == side_tag(args.side),
        market_book_wf(*old(market), *old(taker_book)),
        old(market).base_lot_size == lot,
        lot >= 1,
        remaining >= 1,
        remaining as int % lot as int == 0,
        remaining as int <= args.base_lots as int * lot as int,
        args.base_lots >= 1,
        old(market).total_orders < u64::MAX,
        old(market_events).wf(),
        0 <= m <= MAX_ORDERS_TO_MATCH,
        fill_evs.len() == m,
        old(market_events).events_to_process as int == ev0.events_to_process as int + m,
        old(market_events).total_events_count as int == ev0.total_events_count as int + m,
        old(market_events).market == ev0.market,
        old(market_events).live_events() == ev0.live_events() + fill_evs,
        ev0.events_to_process as int + m + 7 <= EVENT_CAPACITY,
        ev0.total_events_count as int + 8 <= u64::MAX,
    ensures
        order_id == old(market).total_orders + 1,
        *final(market) == (Market { total_orders: order_id, ..*old(market) }),
        final(taker_book).wf(),
        final(taker_book).side == old(taker_book).side,
        final(taker_book).market_account == old(taker_book).market_account,
        market_book_wf(*final(market), *final(taker_book)),
        final(market_events).wf(),
        final(market_events).market == ev0.market,
        ({
            let evicted = old(taker_book).order_count == BOOK_SIDE_CAPACITY;
            let tl = if evicted {
                old(taker_book).live_orders().drop_last()
            } else {
                old(taker_book).live_orders()
            };
            let out_evs = if evicted {
                seq![event_of(
                    out_event_params(old(taker_book).live_orders().last(), args.side),
                    (ev0.total_events_count + 1 + m) as u64,
                )]
            } else {
                Seq::<Event>::empty()
            };
            let new_order = BookSideOrder {
                order_id: (old(market).total_orders + 1) as u64,
                base_amount: remaining,
                quote_amount: resting_quote(args, remaining as int, lot as int) as u64,
                order_authority: caller,
            };
            &&& final(taker_book).live_orders() == tl.insert(
                insert_position(args.side, tl, new_order),
                new_order,
            )
            &&& final(taker_book).order_count as int == tl.len() + 1
            &&& final(market_events).live_events() == ev0.live_events() + fill_evs + out_evs
            &&& final(market_events).events_to_process as int == ev0.events_to_process as int + m
                + out_evs.len()
            &&& final(market_events).total_events_count as int == ev0.total_events_count as int
                + m + out_evs.len()
            &&& base_amount_sum(final(taker_book).live_orders()) + event_base_sum(
                final(market_events).live_events(),
            ) == base_amount_sum(old(taker_book).live_orders()) + event_base_sum(
                old(market_events).live_events(),
            ) + remaining
        }),
{
    let ghost taker0 = *taker_book;
    let ghost evicted = taker0.order_count == BOOK_SIDE_CAPACITY;
    let ghost tl = if evicted {
        taker0.live_orders().drop_last()
    } else {
        taker0.live_orders()
    };
    if taker_book.order_count == (BOOK_SIDE_CAPACITY as u64) {
        evict_worst(taker_book, market_events, args, Ghost(ev0), Ghost(fill_evs), Ghost(m));
        proof {
            assert(taker_book.live_orders() == tl);
        }
    } else {
        proof {
            assert(market_events.live_events() =~= ev0.live_events() + fill_evs
                + Seq::<Event>::empty());
            assert(taker_book.live_orders() == tl);
        }
    }
    proof {
        assert forall|t: int|
            0 <= t < tl.len() implies (#[trigger] tl[t]).base_amount % market.base_lot_size == 0
            && tl[t].order_id <= market.total_orders by {
            assert(tl[t] == taker0.live_orders()[t]);
        }
    }
    insert_resting(caller, market, taker_book, remaining, lot, args)
}

/// Assigns the next order id and inserts the taker's remainder at its price
/// position, with a quote commitment proportional to the lots still open.
fn insert_resting(
    caller: AccountId,
    market: &mut Market,
    taker_book: &mut BookSide,
    remaining: u64,
    lot: u64,
    args: PlaceOrderArgs,
) -> (order_id: u64)
    requires
        old(taker_book).wf(),
        old(taker_book).side == side_tag(args.side),
        old(taker_book).order_count < BOOK_SIDE_CAPACITY,
        market_book_wf(*old(market), *old(taker_book)),
        old(market).base_lot_size == lot,
        lot >= 1,
        remaining >= 1,
        remaining as int % lot as int == 0,
        remaining as int <= args.base_lots as int * lot as int,
        args.base_lots >= 1,
        old(market).total_orders < u64::MAX,
    ensures
        order_id == old(market).total_orders + 1,
        *final(market) == (Market { total_orders: order_id, ..*old(market) }),
        final(taker_book).wf(),
        final(taker_book).side == old(taker_book).side,
        final(taker_book).market_account == old(taker_book).market_account,
        final(taker_book).order_count == old(taker_book).order_count + 1,
        market_book_wf(*final(market), *final(taker_book)),
        ({
            let new_order = BookSideOrder {
                order_id: (old(market).total_orders + 1) as u64,
                base_amount: remaining,
                quote_amount: resting_quote(args, remaining as int, lot as int) as u64,
                order_authority: caller,
            };
            &&& final(taker_book).live_orders() == old(taker_book).live_orders().insert(
                insert_position(args.side, old(taker_book).live_orders(), new_order),
                new_order,
            )
            &&& base_amount_sum(final(taker_book).live_orders()) == base_amount_sum(
                old(taker_book).live_orders(),
            ) + remaining
        }),
{
    let ghost tl = taker_book.live_orders();
    market.total_orders = market.total_orders + 1;
    let order_id = market.total_orders;
    let rem_lots = remaining / lot;
    proof {
        let lot_i = lot as int;
        lemma_div_is_ordered(remaining as int, args.base_lots as int * lot_i, lot_i);
        lemma_div_multiples_vanish(args.base_lots as int, lot_i);
        assert(args.base_lots as int * lot_i == lot_i * (args.base_lots as int))
            by (nonlinear_arith);
        assert(rem_lots <= args.base_lots);
    }
    let rq = mul_div_floor(args.quote_amount, rem_lots, args.base_lots as u64);
    let new_order = BookSideOrder {
        order_id,
        base_amount: remaining,
        quote_amount: rq,
        order_authority: caller,
    };
    proof {
        assert forall|t: int|
            0 <= t < tl.len() implies (#[trigger] tl[t]).order_id != new_order.order_id by {
            assert(tl[t].order_id <= old(market).total_orders);
        }
    }
    let idx = taker_book.insert(new_order);
    proof {
        assert(crate::bookside::side_from_tag(taker_book.side) == args.side);
        lemma_base_sum_insert(tl, idx as int, new_order);
        lemma_taker_wf_after(*market, tl, new_order, idx as int, taker_book.live_orders());
    }
    order_id
}

/// Evicts the worst-priced resting order from a full book, recording an
/// Out event that owes its remaining amounts back to its owner.
fn evict_worst(
    taker_book: &mut BookSide,
    market_events: &mut MarketEvents,
    args: PlaceOrderArgs,
    Ghost(ev0): Ghost<MarketEvents>,
    Ghost(fill_evs): Ghost<Seq<Event>>,
    Ghost(m): Ghost<int>,
)
    requires
        old(taker_book).wf(),
        old(taker_book).order_count == BOOK_SIDE_CAPACITY,
        old(market_events).wf(),
        0 <= m,
        fill_evs.len() == m,
        old(market_events).events_to_process as int == ev0.events_to_process as int + m,
        old(market_events).total_events_count as int == ev0.total_events_count as int + m,
        old(market_events).market == ev0.market,
        old(market_events).live_events() == ev0.live_events() + fill_evs,
        ev0.events_to_process as int + m + 7 <= EVENT_CAPACITY,
        ev0.total_events_count as int + m + 1 <= u64::MAX,
    ensures
        final(taker_book).wf(),
        final(taker_book).side == old(taker_book).side,
        final(taker_book).market_account == old(taker_book).market_account,
        final(taker_book).order_count == old(taker_book).order_count - 1,
        final(taker_book).live_orders() == old(taker_book).live_orders().drop_last(),
        final(market_events).wf(),
        final(market_events).market == ev0.market,
        final(market_events).live_events() == ev0.live_events() + fill_evs + seq![
            event_of(
                out_event_params(old(taker_book).live_orders().last(), args.side),
                (ev0.total_events_count + 1 + m) as u64,
            ),
        ],
        final(market_events).events_to_process as int == ev0.events_to_process as int + m + 1,
        final(market_events).total_events_count as int == ev0.total_events_count as int + m + 1,
        base_amount_sum(final(taker_book).live_orders()) + event_base_sum(
            final(market_events).live_events(),
        ) == base_amount_sum(old(taker_book).live_orders()) + event_base_sum(
            old(market_events).live_events(),
        ),
{
    let ghost taker0 = *taker_book;
    let last_index = (BOOK_SIDE_CAPACITY as usize) - 1;
    let removed = taker_book.orders[last_index];
    proof {
        assert(taker_book.live_orders()[last_index as int]
            == taker_book.orders@[last_index as int]);
        assert(removed == taker0.live_orders().last());
    }
    let ghost before = *market_events;
    market_events.add_event(
        EventParams {
            order_id: removed.order_id,
            maker: removed.order_authority,
            side: args.side,
            event_type: EventType::Out,
            base_amount: removed.base_amount,
            quote_amount: removed.quote_amount,
        },
    );
    proof {
        let e = event_of(
            out_event_params(taker0.live_orders().last(), args.side),
            (ev0.total_events_count + 1 + m) as u64,
        );
        assert(market_events.live_events() =~= ev0.live_events() + fill_evs + seq![e]);
        lemma_event_sums_push(before.live_events(), e);
    }
    taker_book.remove_and_compact(last_index);
    proof {
        assert(taker0.live_orders().remove(taker0.live_orders().len() - 1)
            =~= taker0.live_orders().drop_last());
        lemma_base_sum_remove(taker0.live_orders(), taker0.live_orders().len() - 1);
    }
}

/// The fill-quote bounds for the partially consumed order, phrased so the
/// caller can hand them on without repeating the case split.
proof fn lemma_fill_quote_bounds_if_partial(
    partial: bool,
    maker_side: Side,
    ob: Seq<BookSideOrder>,
    es: Seq<int>,
    m: int,
    lot: int,
)
    requires
        lot >= 1,
        0 <= m <= ob.len(),
        es.len() == m,
        partial ==> m > 0 && 1 <= es[m - 1] <= ob[m - 1].base_amount,
        partial ==> (ob[m - 1].base_amount as int) % lot == 0 && ob[m - 1].base_amount >= 1,
        partial ==> es[m - 1] % lot == 0,
    ensures
        partial ==> 0 <= fill_quote(maker_side, ob[m - 1], es[m - 1], lot) <= ob[m
            - 1].quote_amount,
{
    if partial {
        lemma_fill_quote_bounds(maker_side, ob[m - 1], es[m - 1], lot);
    }
}

/// Ties the sums together after the opposing book has been rewritten: the
/// base remaining on it is the base it held minus everything the fills took.
proof fn finish_conservation(
    ob: Seq<BookSideOrder>,
    es: Seq<int>,
    m: int,
    partial: bool,
    opp_live: Seq<BookSideOrder>,
    lot: int,
    maker_side: Side,
)
    requires
        0 <= m <= ob.len(),
        es.len() == m,
        forall|k: int| 0 <= k < m - 1 ==> es[k] == (#[trigger] ob[k]).base_amount,
        m > 0 ==> 1 <= es[m - 1] <= ob[m - 1].base_amount,
        partial == (m > 0 && es.last() < ob[m - 1].base_amount),
        opp_live == (if partial {
            seq![with_amounts(
                ob[m - 1],
                (ob[m - 1].base_amount - es[m - 1]) as u64,
                (ob[m - 1].quote_amount - fill_quote(maker_side, ob[m - 1], es[m - 1], lot)) as u64,
            )] + ob.skip(m)
        } else {
            ob.skip(m)
        }),
    ensures
        base_amount_sum(opp_live) == base_amount_sum(ob) - int_sum(es),
{
    lemma_base_sum_split(ob, m);
    if m == 0 {
        assert(es =~= Seq::<int>::empty());
        assert(opp_live =~= ob);
    } else if partial {
        let edited = with_amounts(
            ob[m - 1],
            (ob[m - 1].base_amount - es[m - 1]) as u64,
            (ob[m - 1].quote_amount - fill_quote(maker_side, ob[m - 1], es[m - 1], lot)) as u64,
        );
        lemma_eaten_sum(ob, es, m);
        assert(edited.base_amount == ob[m - 1].base_amount - es[m - 1]);
        assert(opp_live[0] == edited);
        assert(opp_live.drop_first() =~= ob.skip(m));
        assert(base_amount_sum(opp_live) == edited.base_amount + base_amount_sum(
            opp_live.drop_first(),
        ));
    } else {
        lemma_eaten_sum(ob, es, m);
        assert(es[m - 1] == ob[m - 1].base_amount);
        assert(opp_live =~= ob.skip(m));
    }
}

/// After the fills are applied, every order left on the opposing book is
/// still lot-exact and carries an id the market has already assigned.
proof fn lemma_opp_wf_after(
    market: Market,
    ob: Seq<BookSideOrder>,
    es: Seq<int>,
    m: int,
    partial: bool,
    opp_live: Seq<BookSideOrder>,
    lot: int,
    maker_side: Side,
)
    requires
        lot == market.base_lot_size,
        lot >= 1,
        0 <= m <= ob.len(),
        es.len() == m,
        forall|k: int|
            0 <= k < ob.len() ==> (#[trigger] ob[k]).base_amount % market.base_lot_size == 0,
        forall|k: int| 0 <= k < ob.len() ==> (#[trigger] ob[k]).order_id <= market.total_orders,
        m > 0 ==> 1 <= es[m - 1] <= ob[m - 1].base_amount && es[m - 1] % lot == 0,
        partial == (m > 0 && es.last() < ob[m - 1].base_amount),
        opp_live == (if partial {
            seq![with_amounts(
                ob[m - 1],
                (ob[m - 1].base_amount - es[m - 1]) as u64,
                (ob[m - 1].quote_amount - fill_quote(maker_side, ob[m - 1], es[m - 1], lot)) as u64,
            )] + ob.skip(m)
        } else {
            ob.skip(m)
        }),
    ensures
        forall|k: int|
            0 <= k < opp_live.len() ==> (#[trigger] opp_live[k]).base_amount
                % market.base_lot_size == 0,
        forall|k: int|
            0 <= k < opp_live.len() ==> (#[trigger] opp_live[k]).order_id <= market.total_orders,
{
    assert forall|k: int|
        0 <= k < opp_live.len() implies (#[trigger] opp_live[k]).base_amount
        % market.base_lot_size == 0 && opp_live[k].order_id <= market.total_orders by {
        if partial {
            if k == 0 {
                assert(opp_live[0].base_amount == ob[m - 1].base_amount - es[m - 1]);
                lemma_mod_diff_zero(ob[m - 1].base_amount as int, es[m - 1], lot);
            } else {
                assert(opp_live[k] == ob[k + m - 1]);
            }
        } else {
            assert(opp_live[k] == ob[k + m]);
        }
    }
}

/// After the remainder rests, every order on the taker's book is lot-exact
/// and carries an id the market has already assigned.
proof fn lemma_taker_wf_after(
    market: Market,
    tl: Seq<BookSideOrder>,
    new_order: BookSideOrder,
    p: int,
    post_live: Seq<BookSideOrder>,
)
    requires
        market.base_lot_size >= 1,
        0 <= p <= tl.len(),
        post_live == tl.insert(p, new_order),
        forall|k: int|
            0 <= k < tl.len() ==> (#[trigger] tl[k]).base_amount % market.base_lot_size == 0,
        forall|k: int| 0 <= k < tl.len() ==> (#[trigger] tl[k]).order_id <= market.total_orders,
        new_order.base_amount % market.base_lot_size == 0,
        new_order.order_id <= market.total_orders,
    ensures
        forall|k: int|
            0 <= k < post_live.len() ==> (#[trigger] post_live[k]).base_amount
                % market.base_lot_size == 0,
        forall|k: int|
            0 <= k < post_live.len() ==> (#[trigger] post_live[k]).order_id
                <= market.total_orders,
{
    assert forall|k: int|
        0 <= k < post_live.len() implies (#[trigger] post_live[k]).base_amount
        % market.base_lot_size == 0 && post_live[k].order_id <= market.total_orders by {
        if k < p {
            assert(post_live[k] == tl[k]);
        } else if k == p {
            assert(post_live[k] == new_order);
        } else {
            assert(post_live[k] == tl[k - 1]);
        }
    }
}


/// Places an order against the market: validates the book tags, checks the
/// caller's custody snapshot, matches against the opposing side under price
/// protection, and either fully executes or rests the remainder — all after
/// every check has passed, so a failed call leaves the books, the event log
/// and the market untouched.
pub fn place_order(
    caller: AccountId,
    market: &mut Market,
    bids: &mut BookSide,
    asks: &mut BookSide,
    market_events: &mut MarketEvents,
    available_balance: u64,
    args: PlaceOrderArgs,
) -> (r: Result<PlaceOrderOutcome, ClobbyProgramError>)
    requires
        old(bids).wf(),
        old(asks).wf(),
        old(market_events).wf(),
        market_book_wf(*old(market), *old(bids)),
        market_book_wf(*old(market), *old(asks)),
        old(market).base_lot_size >= 1,
        args.base_lots >= 1,
        args.base_lots as int * old(market).base_lot_size as int <= u64::MAX,
        old(market).total_orders < u64::MAX,
        old(market_events).total_events_count as int + 8 <= u64::MAX,
    ensures
        final(bids).wf(),
        final(asks).wf(),
        final(market_events).wf(),
        market_book_wf(*final(market), *final(bids)),
        market_book_wf(*final(market), *final(asks)),
        r is Err ==> *final(market) == *old(market) && *final(bids) == *old(bids) && *final(asks)
            == *old(asks) && *final(market_events) == *old(market_events),
        // A book whose tag does not match its role is a decode failure.
        (old(bids).side != 0 || old(asks).side != 1) <==> r == Err::<PlaceOrderOutcome, _>(
            ClobbyProgramError::InvalidBookSide,
        ),
        old(bids).side == 0 && old(asks).side == 1 ==> match args.side {
            Side::Bid => match place_failure(
                *old(market),
                *old(bids),
                *old(asks),
                *old(market_events),
                available_balance,
                args,
            ) {
                Some(e) => r == Err::<PlaceOrderOutcome, _>(e),
                None => r is Ok,
            },
            Side::Ask => match place_failure(
                *old(market),
                *old(asks),
                *old(bids),
                *old(market_events),
                available_balance,
                args,
            ) {
                Some(e) => r == Err::<PlaceOrderOutcome, _>(e),
                None => r is Ok,
            },
        },
        r matches Ok(outcome) ==> match args.side {
            Side::Bid => place_ok_post(
                caller,
                *old(market),
                *final(market),
                *old(bids),
                *final(bids),
                *old(asks),
                *final(asks),
                *old(market_events),
                *final(market_events),
                args,
                outcome,
            ),
            Side::Ask => place_ok_post(
                caller,
                *old(market),
                *final(market),
                *old(asks),
                *final(asks),
                *old(bids),
                *final(bids),
                *old(market_events),
                *final(market_events),
                args,
                outcome,
            ),
        },
{
    if bids.side != 0 || asks.side != 1 {
        return Err(ClobbyProgramError::InvalidBookSide);
    }
    match args.side {
        Side::Bid => place_order_core(
            caller,
            market,
            bids,
            asks,
            market_events,
            available_balance,
            args,
        ),
        Side::Ask => place_order_core(
            caller,
            market,
            asks,
            bids,
            market_events,
            available_balance,
            args,
        ),
    }
}


/// The quote the fills take from the matched opposing orders, in walk
/// order: each matched order pays out its fill quote.
pub open spec fn fill_quote_total(
    maker_side: Side,
    ob: Seq<BookSideOrder>,
    es: Seq<int>,
    lot: int,
) -> int
    decreases es.len(),
{
    if es.len() == 0 {
        0
    } else {
        fill_quote(maker_side, ob[0], es[0], lot) + fill_quote_total(
            maker_side,
            ob.drop_first(),
            es.drop_first(),
            lot,
        )
    }
}

/// A sequence of events carrying the fill quotes sums to their total; a
/// successful placement's fill events carry exactly these quotes, so this
/// connects the event log's recorded quote to `fill_quote_total`.
pub proof fn lemma_fill_events_quote_sum(
    evs: Seq<Event>,
    maker_side: Side,
    ob: Seq<BookSideOrder>,
    es: Seq<int>,
    lot: int,
)
    requires
        evs.len() == es.len(),
        es.len() <= ob.len(),
        forall|k: int| 0 <= k < es.len() ==> 0 <= fill_quote(maker_side, ob[k], #[trigger] es[k], lot)
            <= u64::MAX,
        forall|k: int|
            0 <= k < es.len() ==> (#[trigger] evs[k]).quote_amount == fill_quote(
                maker_side,
                ob[k],
                es[k],
                lot,
            ),
    ensures
        event_quote_sum(evs) == fill_quote_total(maker_side, ob, es, lot),
    decreases es.len(),
{
    if es.len() > 0 {
        assert(event_quote_sum(evs) == evs[0].quote_amount + event_quote_sum(evs.drop_first()));
        assert forall|k: int|
            0 <= k < es.len() - 1 implies (#[trigger] evs.drop_first()[k]).quote_amount
            == fill_quote(maker_side, ob.drop_first()[k], es.drop_first()[k], lot) by {
            assert(evs.drop_first()[k] == evs[k + 1]);
            assert(ob.drop_first()[k] == ob[k + 1]);
            assert(es.drop_first()[k] == es[k + 1]);
        }
        assert forall|k: int|
            0 <= k < es.len() - 1 implies 0 <= fill_quote(
            maker_side,
            ob.drop_first()[k],
            #[trigger] es.drop_first()[k],
            lot,
        ) <= u64::MAX by {
            assert(ob.drop_first()[k] == ob[k + 1]);
            assert(es.drop_first()[k] == es[k + 1]);
        }
        lemma_fill_events_quote_sum(
            evs.drop_first(),
            maker_side,
            ob.drop_first(),
            es.drop_first(),
            lot,
        );
    }
}

/// Every matched order but the last pays out its whole quote.
proof fn lemma_fill_quote_total_unfold(
    maker_side: Side,
    ob: Seq<BookSideOrder>,
    es: Seq<int>,
    m: int,
    lot: int,
)
    requires
        lot >= 1,
        1 <= m <= ob.len(),
        es.len() == m,
        forall|k: int|
            0 <= k < m ==> (#[trigger] ob[k]).base_amount >= 1 && (ob[k].base_amount as int) % lot
                == 0,
        forall|k: int| 0 <= k < m ==> 1 <= #[trigger] es[k] <= ob[k].base_amount && es[k] % lot == 0,
        forall|k: int| 0 <= k < m - 1 ==> es[k] == (#[trigger] ob[k]).base_amount,
    ensures
        fill_quote_total(maker_side, ob, es, lot) == quote_amount_sum(ob.take(m)) - ob[m
            - 1].quote_amount + fill_quote(maker_side, ob[m - 1], es[m - 1], lot),
    decreases m,
{
    let t = ob.take(m);
    assert(quote_amount_sum(t) == t[0].quote_amount + quote_amount_sum(t.drop_first()));
    assert(t.drop_first() =~= ob.drop_first().take(m - 1));
    if m == 1 {
        assert(fill_quote_total(maker_side, ob, es, lot) == fill_quote(maker_side, ob[0], es[0], lot)
            + fill_quote_total(maker_side, ob.drop_first(), es.drop_first(), lot));
        assert(es.drop_first() =~= Seq::<int>::empty());
        assert(t.drop_first() =~= Seq::<BookSideOrder>::empty());
    } else {
        assert(es[0] == ob[0].base_amount);
        lemma_fill_quote_bounds(maker_side, ob[0], es[0], lot);
        assert(fill_quote(maker_side, ob[0], es[0], lot) == ob[0].quote_amount);
        assert forall|k: int|
            0 <= k < m - 1 implies (#[trigger] ob.drop_first()[k]).base_amount >= 1 && (
            ob.drop_first()[k].base_amount as int) % lot == 0 by {
            assert(ob.drop_first()[k] == ob[k + 1]);
        }
        assert forall|k: int|
            0 <= k < m - 1 implies 1 <= #[trigger] es.drop_first()[k]
            <= ob.drop_first()[k].base_amount && es.drop_first()[k] % lot == 0 by {
            assert(es.drop_first()[k] == es[k + 1]);
            assert(ob.drop_first()[k] == ob[k + 1]);
        }
        assert forall|k: int|
            0 <= k < m - 2 implies es.drop_first()[k] == (#[trigger] ob.drop_first()[k]).base_amount
        by {
            assert(es.drop_first()[k] == es[k + 1]);
            assert(ob.drop_first()[k] == ob[k + 1]);
        }
        lemma_fill_quote_total_unfold(maker_side, ob.drop_first(), es.drop_first(), m - 1, lot);
        assert(ob.drop_first()[m - 2] == ob[m - 1]);
        assert(es.drop_first()[m - 2] == es[m - 1]);
    }
}

/// Quote-side conservation at placement: the quote that leaves the matched
/// opposing orders is exactly the quote the fill events pay out.  Together
/// with the base clause of `place_ok_post` (and `lemma_fill_events_quote_sum`
/// to read the total off the appended events), every amount a placement
/// takes off the opposing book is recorded in the event log.
pub proof fn lemma_place_quote_conservation(
    maker_side: Side,
    ob: Seq<BookSideOrder>,
    es: Seq<int>,
    m: int,
    partial: bool,
    opp_live: Seq<BookSideOrder>,
    lot: int,
)
    requires
        lot >= 1,
        0 <= m <= ob.len(),
        es.len() == m,
        forall|k: int|
            0 <= k < m ==> (#[trigger] ob[k]).base_amount >= 1 && (ob[k].base_amount as int) % lot
                == 0,
        forall|k: int| 0 <= k < m ==> 1 <= #[trigger] es[k] <= ob[k].base_amount && es[k] % lot == 0,
        forall|k: int| 0 <= k < m - 1 ==> es[k] == (#[trigger] ob[k]).base_amount,
        partial == (m > 0 && es.last() < ob[m - 1].base_amount),
        opp_live == (if partial {
            seq![with_amounts(
                ob[m - 1],
                (ob[m - 1].base_amount - es[m - 1]) as u64,
                (ob[m - 1].quote_amount - fill_quote(maker_side, ob[m - 1], es[m - 1], lot)) as u64,
            )] + ob.skip(m)
        } else {
            ob.skip(m)
        }),
    ensures
        quote_amount_sum(opp_live) + fill_quote_total(maker_side, ob, es, lot)
            == quote_amount_sum(ob),
{
    lemma_quote_sum_split(ob, m);
    if m == 0 {
        assert(es =~= Seq::<int>::empty());
        assert(opp_live =~= ob);
    } else if partial {
        lemma_fill_quote_bounds(maker_side, ob[m - 1], es[m - 1], lot);
        lemma_fill_quote_total_unfold(maker_side, ob, es, m, lot);
        let edited = with_amounts(
            ob[m - 1],
            (ob[m - 1].base_amount - es[m - 1]) as u64,
            (ob[m - 1].quote_amount - fill_quote(maker_side, ob[m - 1], es[m - 1], lot)) as u64,
        );
        assert(edited.quote_amount == ob[m - 1].quote_amount - fill_quote(
            maker_side,
            ob[m - 1],
            es[m - 1],
            lot,
        ));
        assert(opp_live[0] == edited);
        assert(opp_live.drop_first() =~= ob.skip(m));
        assert(quote_amount_sum(opp_live) == edited.quote_amount + quote_amount_sum(
            opp_live.drop_first(),
        ));
    } else {
        assert(es[m - 1] == ob[m - 1].base_amount);
        lemma_fill_quote_bounds(maker_side, ob[m - 1], es[m - 1], lot);
        lemma_fill_quote_total_unfold(maker_side, ob, es, m, lot);
        assert(opp_live =~= ob.skip(m));
    }
}

} // verus!
