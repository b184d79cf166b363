use vstd::prelude::*;

use crate::balance::UserBalance;
use crate::errors::ClobbyProgramError;
use crate::ids::AccountId;
use crate::market::Market;
use crate::market_events::{
    cleared_event, event_base_sum, event_quote_sum, Event, MarketEvents, EVENT_CAPACITY,
};

verus! {

/// Whether some supplied ledger record belongs to this maker.
pub open spec fn has_entry(ledgers: Seq<UserBalance>, maker: AccountId) -> bool {
    exists|j: int| 0 <= j < ledgers.len() && (#[trigger] ledgers[j]).user == maker
}

/// The first ledger record belonging to this maker.
pub open spec fn entry_index(ledgers: Seq<UserBalance>, maker: AccountId) -> int
    decreases ledgers.len(),
{
    if ledgers.len() == 0 {
        0
    } else if ledgers[0].user == maker {
        0
    } else {
        1 + entry_index(ledgers.drop_first(), maker)
    }
}

/// The credit an event pays its maker on consumption: base for a filled bid
/// or an evicted/cancelled ask, quote for a filled ask or an evicted/
/// cancelled bid.
pub open spec fn credit_amount(e: Event) -> int {
    if e.event_type == 0 {
        if e.side == 0 {
            e.base_amount as int
        } else {
            e.quote_amount as int
        }
    } else {
        if e.side == 0 {
            e.quote_amount as int
        } else {
            e.base_amount as int
        }
    }
}

/// A ledger record after one event's credit.
pub open spec fn credited(entry: UserBalance, e: Event) -> UserBalance {
    if e.event_type == 0 {
        if e.side == 0 {
            UserBalance { base_amount: (entry.base_amount + e.base_amount) as u64, ..entry }
        } else {
            UserBalance { quote_amount: (entry.quote_amount + e.quote_amount) as u64, ..entry }
        }
    } else {
        if e.side == 0 {
            UserBalance { quote_amount: (entry.quote_amount + e.quote_amount) as u64, ..entry }
        } else {
            UserBalance { base_amount: (entry.base_amount + e.base_amount) as u64, ..entry }
        }
    }
}

/// What one consumption pass does, scanning the unconsumed events oldest
/// first: an event whose maker has a supplied ledger record is credited and
/// leaves the log; one whose maker has none is skipped and kept for a later
/// call; the scan stops after `limit` events have been consumed.  Returns
/// the events kept (in order), the updated ledgers, and the events consumed
/// (in order).
pub open spec fn consume_model(
    evs: Seq<Event>,
    ledgers: Seq<UserBalance>,
    limit: nat,
) -> (Seq<Event>, Seq<UserBalance>, Seq<Event>)
    decreases evs.len(),
{
    if evs.len() == 0 || limit == 0 {
        (evs, ledgers, Seq::<Event>::empty())
    } else {
        let e = evs[0];
        if has_entry(ledgers, e.maker) {
            let i = entry_index(ledgers, e.maker);
            let l2 = ledgers.update(i, credited(ledgers[i], e));
            let rec = consume_model(evs.drop_first(), l2, (limit - 1) as nat);
            (rec.0, rec.1, seq![e] + rec.2)
        } else {
            let rec = consume_model(evs.drop_first(), ledgers, limit);
            (seq![e] + rec.0, rec.1, rec.2)
        }
    }
}

/// The first decode failure over a region of events, checking each event's
/// kind tag before its side tag, oldest event first.
pub open spec fn events_decode_error(evs: Seq<Event>) -> Option<ClobbyProgramError>
    decreases evs.len(),
{
    if evs.len() == 0 {
        None
    } else if !(evs[0].event_type == 0 || evs[0].event_type == 1) {
        Some(ClobbyProgramError::InvalidEventType)
    } else if !(evs[0].side == 0 || evs[0].side == 1) {
        Some(ClobbyProgramError::InvalidBookSide)
    } else {
        events_decode_error(evs.drop_first())
    }
}

/// Room for every credit: no supplied balance can overflow even if all the
/// recorded amounts were credited to it.
pub open spec fn credit_headroom(ledgers: Seq<UserBalance>, evs: Seq<Event>) -> bool {
    forall|j: int|
        0 <= j < ledgers.len() ==> (#[trigger] ledgers[j]).base_amount + event_base_sum(evs)
            <= u64::MAX && ledgers[j].quote_amount + event_quote_sum(evs) <= u64::MAX
}

/// The total accrued in a set of ledger records, base and quote together.
pub open spec fn ledger_total(ledgers: Seq<UserBalance>) -> int
    decreases ledgers.len(),
{
    if ledgers.len() == 0 {
        0
    } else {
        ledgers[0].base_amount + ledgers[0].quote_amount + ledger_total(ledgers.drop_first())
    }
}

/// The total the consumed events pay out, per the credit table.
pub open spec fn credit_total(evs: Seq<Event>) -> int
    decreases evs.len(),
{
    if evs.len() == 0 {
        0
    } else {
        credit_amount(evs[0]) + credit_total(evs.drop_first())
    }
}

/// Recorded amounts are never negative.
pub proof fn lemma_event_sums_nonneg(s: Seq<Event>)
    ensures
        event_base_sum(s) >= 0,
        event_quote_sum(s) >= 0,
    decreases s.len(),
{
    if s.len() > 0 {
        lemma_event_sums_nonneg(s.drop_first());
    }
}

/// Characterizes `entry_index` by what the resolution scan observes.
pub proof fn lemma_entry_index_char(ledgers: Seq<UserBalance>, maker: AccountId, j: int)
    requires
        0 <= j < ledgers.len(),
        ledgers[j].user == maker,
        forall|k: int| 0 <= k < j ==> (#[trigger] ledgers[k]).user != maker,
    ensures
        has_entry(ledgers, maker),
        entry_index(ledgers, maker) == j,
    decreases ledgers.len(),
{
    if j == 0 {
    } else {
        let t = ledgers.drop_first();
        assert(t[j - 1] == ledgers[j]);
        assert forall|k: int| 0 <= k < j - 1 implies (#[trigger] t[k]).user != maker by {
            assert(t[k] == ledgers[k + 1]);
        }
        lemma_entry_index_char(t, maker, j - 1);
        assert(ledgers[0].user != maker);
    }
}

/// Characterizes `events_decode_error` by what the validation scan
/// observes: no failure before `i`, and what stands at `i`, if anything.
pub proof fn lemma_decode_prefix(evs: Seq<Event>, i: int)
    requires
        0 <= i <= evs.len(),
        forall|k: int|
            0 <= k < i ==> ((#[trigger] evs[k]).event_type == 0 || evs[k].event_type == 1) && (
            evs[k].side == 0 || evs[k].side == 1),
    ensures
        i == evs.len() ==> events_decode_error(evs) == None::<ClobbyProgramError>,
        i < evs.len() && !(evs[i].event_type == 0 || evs[i].event_type == 1)
            ==> events_decode_error(evs) == Some(ClobbyProgramError::InvalidEventType),
        i < evs.len() && (evs[i].event_type == 0 || evs[i].event_type == 1) && !(evs[i].side == 0
            || evs[i].side == 1) ==> events_decode_error(evs) == Some(
            ClobbyProgramError::InvalidBookSide,
        ),
    decreases evs.len(),
{
    if evs.len() == 0 {
    } else if i == 0 {
        if (evs[0].event_type == 0 || evs[0].event_type == 1) && (evs[0].side == 0 || evs[0].side
            == 1) {
        }
    } else {
        let t = evs.drop_first();
        assert forall|k: int|
            0 <= k < i - 1 implies ((#[trigger] t[k]).event_type == 0 || t[k].event_type == 1)
            && (t[k].side == 0 || t[k].side == 1) by {
            assert(t[k] == evs[k + 1]);
        }
        if i < evs.len() {
            assert(t[i - 1] == evs[i]);
        }
        lemma_decode_prefix(t, i - 1);
    }
}

/// Conservation through consumption: the amounts recorded in the kept
/// events plus those in the consumed events are exactly the amounts that
/// were recorded, and the ledgers grow by exactly the consumed events'
/// credits.  Together with the placement and cancellation contracts this
/// closes the pipeline: an amount leaves the event log only by landing in a
/// ledger.
pub proof fn lemma_consume_model_conservation(
    evs: Seq<Event>,
    ledgers: Seq<UserBalance>,
    limit: nat,
)
    requires
        credit_headroom(ledgers, evs),
    ensures
        ({
            let (kept, l2, consumed) = consume_model(evs, ledgers, limit);
            &&& event_base_sum(kept) + event_base_sum(consumed) == event_base_sum(evs)
            &&& event_quote_sum(kept) + event_quote_sum(consumed) == event_quote_sum(evs)
            &&& ledger_total(l2) == ledger_total(ledgers) + credit_total(consumed)
            &&& l2.len() == ledgers.len()
        }),
    decreases evs.len(),
{
    let (kept, l2, consumed) = consume_model(evs, ledgers, limit);
    if evs.len() == 0 || limit == 0 {
        assert(event_base_sum(consumed) == 0);
        assert(event_quote_sum(consumed) == 0);
        assert(credit_total(consumed) == 0);
    } else {
        let e = evs[0];
        let t = evs.drop_first();
        assert(event_base_sum(evs) == e.base_amount + event_base_sum(t));
        assert(event_quote_sum(evs) == e.quote_amount + event_quote_sum(t));
        lemma_event_sums_nonneg(t);
        if has_entry(ledgers, e.maker) {
            let i = entry_index(ledgers, e.maker);
            lemma_entry_index_in_range(ledgers, e.maker);
            let up = credited(ledgers[i], e);
            let lmid = ledgers.update(i, up);
            assert forall|j: int|
                0 <= j < lmid.len() implies (#[trigger] lmid[j]).base_amount + event_base_sum(t)
                <= u64::MAX && lmid[j].quote_amount + event_quote_sum(t) <= u64::MAX by {
                if j != i {
                    assert(lmid[j] == ledgers[j]);
                } else {
                    assert(lmid[i] == up);
                }
            }
            lemma_consume_model_conservation(t, lmid, (limit - 1) as nat);
            lemma_ledger_total_update(ledgers, i, up);
            assert(up.base_amount + up.quote_amount == ledgers[i].base_amount
                + ledgers[i].quote_amount + credit_amount(e));
            let rec = consume_model(t, lmid, (limit - 1) as nat);
            assert(consumed == seq![e] + rec.2);
            assert(consumed[0] == e);
            assert(consumed.drop_first() =~= rec.2);
            assert(event_base_sum(consumed) == e.base_amount + event_base_sum(rec.2));
            assert(event_quote_sum(consumed) == e.quote_amount + event_quote_sum(rec.2));
            assert(credit_total(consumed) == credit_amount(e) + credit_total(rec.2));
        } else {
            lemma_consume_model_conservation(t, ledgers, limit);
            let rec = consume_model(t, ledgers, limit);
            assert(kept == seq![e] + rec.0);
            assert(kept[0] == e);
            assert(kept.drop_first() =~= rec.0);
            assert(event_base_sum(kept) == e.base_amount + event_base_sum(rec.0));
            assert(event_quote_sum(kept) == e.quote_amount + event_quote_sum(rec.0));
        }
    }
}

/// The first matching index lies inside the sequence whenever a match
/// exists.
pub proof fn lemma_entry_index_in_range(ledgers: Seq<UserBalance>, maker: AccountId)
    requires
        has_entry(ledgers, maker),
    ensures
        0 <= entry_index(ledgers, maker) < ledgers.len(),
        ledgers[entry_index(ledgers, maker)].user == maker,
    decreases ledgers.len(),
{
    if ledgers.len() == 0 {
    } else if ledgers[0].user == maker {
    } else {
        let t = ledgers.drop_first();
        let w = choose|j: int| 0 <= j < ledgers.len() && (#[trigger] ledgers[j]).user == maker;
        assert(t[w - 1] == ledgers[w]);
        assert(has_entry(t, maker));
        lemma_entry_index_in_range(t, maker);
        assert(ledgers[1 + entry_index(t, maker)] == t[entry_index(t, maker)]);
    }
}

/// Rewriting one record shifts the total by the difference of its amounts.
pub proof fn lemma_ledger_total_update(ledgers: Seq<UserBalance>, i: int, up: UserBalance)
    requires
        0 <= i < ledgers.len(),
    ensures
        ledger_total(ledgers.update(i, up)) == ledger_total(ledgers) - ledgers[i].base_amount
            - ledgers[i].quote_amount + up.base_amount + up.quote_amount,
    decreases ledgers.len(),
{
    if i == 0 {
        assert(ledgers.update(0, up).drop_first() =~= ledgers.drop_first());
        assert(ledgers.update(0, up)[0] == up);
    } else {
        lemma_ledger_total_update(ledgers.drop_first(), i - 1, up);
        assert(ledgers.update(i, up).drop_first() =~= ledgers.drop_first().update(i - 1, up));
        assert(ledgers.update(i, up)[0] == ledgers[0]);
    }
}

/// The first ledger record owned by this maker, if any was supplied.
fn find_ledger_index(ledgers: &Vec<UserBalance>, maker: AccountId) -> (r: Option<usize>)
    ensures
        match r {
            Some(j) => j < ledgers@.len() && ledgers@[j as int].user == maker && entry_index(
                ledgers@,
                maker,
            ) == j && has_entry(ledgers@, maker),
            None => !has_entry(ledgers@, maker),
        },
{
    let mut j: usize = 0;
    while j < ledgers.len()
        invariant
            j <= ledgers@.len(),
            forall|k: int| 0 <= k < j ==> (#[trigger] ledgers@[k]).user != maker,
        decreases ledgers@.len() - j,
    {
        if ledgers[j].user == maker {
            proof {
                lemma_entry_index_char(ledgers@, maker, j as int);
            }
            return Some(j);
        }
        j = j + 1;
    }
    None
}


/// Drains the event log in a bounded batch, crediting each consumed event's
/// maker through the supplied ledger records (the resolver context).  An
/// event whose maker has no supplied record is skipped, not failed, and
/// stays in the log for a later call.  All tags are validated before
/// anything is mutated, so a failed call changes nothing.
pub fn consume_events(
    caller: AccountId,
    market: &Market,
    market_events: &mut MarketEvents,
    ledgers: &mut Vec<UserBalance>,
    batch_limit: u64,
) -> (r: Result<u64, ClobbyProgramError>)
    requires
        old(market_events).wf(),
        credit_headroom(old(ledgers)@, old(market_events).live_events()),
    ensures
        final(market_events).wf(),
        final(market_events).market == old(market_events).market,
        final(market_events).total_events_count == old(market_events).total_events_count,
        r is Err ==> *final(market_events) == *old(market_events) && *final(ledgers) == *old(ledgers),
        (caller != market.consume_events_authority) <==> r == Err::<u64, _>(
            ClobbyProgramError::UnauthorizedAction,
        ),
        caller == market.consume_events_authority ==> match events_decode_error(
            old(market_events).live_events(),
        ) {
            Some(e) => r == Err::<u64, _>(e),
            None => r is Ok,
        },
        r is Ok ==> ({
            let (kept, l2, consumed) = consume_model(
                old(market_events).live_events(),
                old(ledgers)@,
                batch_limit as nat,
            );
            &&& r == Ok::<u64, ClobbyProgramError>(consumed.len() as u64)
            &&& final(market_events).events_to_process as int == old(market_events).events_to_process as int - consumed.len()
            &&& final(market_events).live_events() == kept
            &&& final(ledgers)@ == l2
            &&& forall|w: int|
                kept.len() <= w < old(market_events).events_to_process ==> final(market_events).events@[w] == cleared_event(market.market_account)
            &&& final(market_events).events@.skip(old(market_events).events_to_process as int)
                == old(market_events).events@.skip(
                old(market_events).events_to_process as int,
            )
        }),
{
    if caller != market.consume_events_authority {
        return Err(ClobbyProgramError::UnauthorizedAction);
    }
    let count = market_events.events_to_process as usize;
    let ghost live = market_events.live_events();

    // Validate every unconsumed event's tags before touching anything.
    let mut v: usize = 0;
    while v < count
        invariant
            v <= count,
            caller == market.consume_events_authority,
            *market_events == *old(market_events),
            *ledgers == *old(ledgers),
            count == market_events.events_to_process,
            market_events.wf(),
            live == market_events.live_events(),
            forall|k: int|
                0 <= k < v ==> ((#[trigger] live[k]).event_type == 0 || live[k].event_type == 1)
                    && (live[k].side == 0 || live[k].side == 1),
        decreases count - v,
    {
        let e = market_events.events[v];
        proof {
            assert(live[v as int] == market_events.events@[v as int]);
        }
        if let Err(decode_err) = e.get_event_in_enum() {
            proof {
                lemma_decode_prefix(live, v as int);
            }
            return Err(decode_err);
        }
        if let Err(decode_err) = e.get_side_in_enum() {
            proof {
                lemma_decode_prefix(live, v as int);
            }
            return Err(decode_err);
        }
        v = v + 1;
    }
    proof {
        lemma_decode_prefix(live, count as int);
    }

    // Scan: credit resolvable events, keep the rest in order.
    let ghost l0 = ledgers@;
    let ghost full = consume_model(live, l0, batch_limit as nat);
    let mut remaining: Vec<Event> = Vec::new();
    let ghost mut consumed_evs = Seq::<Event>::empty();
    let mut consumed: u64 = 0;
    let mut i: usize = 0;
    proof {
        assert(live.skip(0) =~= live);
        assert(Seq::<Event>::empty() + full.0 =~= full.0);
        assert(Seq::<Event>::empty() + full.2 =~= full.2);
    }
    while i < count && consumed < batch_limit
        invariant
            i <= count,
            count == market_events.events_to_process,
            market_events.wf(),
            live == market_events.live_events(),
            consumed as int == consumed_evs.len(),
            consumed <= batch_limit,
            remaining@.len() + consumed as int == i,
            credit_headroom(ledgers@, live.skip(i as int)),
            full == ({
                let rec = consume_model(
                    live.skip(i as int),
                    ledgers@,
                    (batch_limit - consumed) as nat,
                );
                (remaining@ + rec.0, rec.1, consumed_evs + rec.2)
            }),
        decreases count - i,
    {
        let e = market_events.events[i];
        proof {
            assert(live[i as int] == market_events.events@[i as int]);
            assert(live.skip(i as int)[0] == live[i as int]);
            assert(live.skip(i as int).drop_first() =~= live.skip(i as int + 1));
            assert(event_base_sum(live.skip(i as int)) == e.base_amount + event_base_sum(
                live.skip(i as int + 1),
            ));
            assert(event_quote_sum(live.skip(i as int)) == e.quote_amount + event_quote_sum(
                live.skip(i as int + 1),
            ));
            lemma_event_sums_nonneg(live.skip(i as int + 1));
        }
        let found = find_ledger_index(ledgers, e.maker);
        match found {
            Some(jdx) => {
                let entry = ledgers[jdx];
                proof {
                    assert(ledgers@[jdx as int].base_amount + event_base_sum(
                        live.skip(i as int),
                    ) <= u64::MAX);
                    assert(ledgers@[jdx as int].quote_amount + event_quote_sum(
                        live.skip(i as int),
                    ) <= u64::MAX);
                }
                let mut up = entry;
                if e.event_type == 0 {
                    if e.side == 0 {
                        up.base_amount = up.base_amount + e.base_amount;
                    } else {
                        up.quote_amount = up.quote_amount + e.quote_amount;
                    }
                } else {
                    if e.side == 0 {
                        up.quote_amount = up.quote_amount + e.quote_amount;
                    } else {
                        up.base_amount = up.base_amount + e.base_amount;
                    }
                }
                proof {
                    assert(up == credited(entry, e));
                }
                let ghost l_pre = ledgers@;
                ledgers[jdx] = up;
                proof {
                    let rec = consume_model(
                        live.skip(i as int),
                        l_pre,
                        (batch_limit - consumed) as nat,
                    );
                    let rec2 = consume_model(
                        live.skip(i as int + 1),
                        ledgers@,
                        (batch_limit - consumed - 1) as nat,
                    );
                    assert(ledgers@ == l_pre.update(
                        entry_index(l_pre, e.maker),
                        credited(l_pre[entry_index(l_pre, e.maker)], e),
                    ));
                    assert(rec == (rec2.0, rec2.1, seq![e] + rec2.2));
                    consumed_evs = consumed_evs.push(e);
                    assert(consumed_evs + rec2.2 =~= (consumed_evs.drop_last() + (seq![e]
                        + rec2.2)));
                    assert forall|j: int|
                        0 <= j < ledgers@.len() implies (#[trigger] ledgers@[j]).base_amount
                        + event_base_sum(live.skip(i as int + 1)) <= u64::MAX
                        && ledgers@[j].quote_amount + event_quote_sum(live.skip(i as int + 1))
                        <= u64::MAX by {
                        if j != jdx {
                            assert(ledgers@[j] == l_pre[j]);
                        } else {
                            assert(ledgers@[j] == up);
                        }
                    }
                }
                consumed = consumed + 1;
            },
            None => {
                remaining.push(e);
                proof {
                    let rec = consume_model(
                        live.skip(i as int),
                        ledgers@,
                        (batch_limit - consumed) as nat,
                    );
                    let rec2 = consume_model(
                        live.skip(i as int + 1),
                        ledgers@,
                        (batch_limit - consumed) as nat,
                    );
                    assert(rec == (seq![e] + rec2.0, rec2.1, rec2.2));
                    assert(remaining@ + rec2.0 =~= (remaining@.drop_last() + (seq![e]
                        + rec2.0)));
                }
            },
        }
        i = i + 1;
    }
    proof {
        let rec = consume_model(live.skip(i as int), ledgers@, (batch_limit - consumed) as nat);
        if !(consumed < batch_limit) {
        } else {
            assert(i == count);
            assert(live.skip(i as int).len() == 0);
        }
        assert(rec.0 == live.skip(i as int));
        assert(rec.1 == ledgers@);
        assert(rec.2 =~= Seq::<Event>::empty());
        assert(consumed_evs + Seq::<Event>::empty() =~= consumed_evs);
        assert(full.0 == remaining@ + live.skip(i as int));
        assert(full.1 == ledgers@);
        assert(full.2 == consumed_evs);
    }

    // Keep the unscanned tail, still in order.
    while i < count
        invariant
            i <= count,
            count == market_events.events_to_process,
            market_events.wf(),
            live == market_events.live_events(),
            consumed as int == consumed_evs.len(),
            remaining@.len() + consumed as int == i,
            full.0 == remaining@ + live.skip(i as int),
            full.1 == ledgers@,
            full.2 == consumed_evs,
        decreases count - i,
    {
        let e = market_events.events[i];
        proof {
            assert(live[i as int] == market_events.events@[i as int]);
            assert(live.skip(i as int)[0] == live[i as int]);
            assert(remaining@ + live.skip(i as int) =~= remaining@.push(e) + live.skip(
                i as int + 1,
            ));
        }
        remaining.push(e);
        i = i + 1;
    }
    proof {
        assert(live.skip(count as int) =~= Seq::<Event>::empty());
        assert(remaining@ + Seq::<Event>::empty() =~= remaining@);
        assert(full.0 == remaining@);
    }

    // Write the kept events back to the front and clear the freed slots.
    let new_count = remaining.len();
    let ghost ev_pre = *market_events;
    let mut w: usize = 0;
    while w < new_count
        invariant
            w <= new_count,
            new_count == remaining@.len(),
            new_count <= count,
            count == market_events.events_to_process,
            count <= EVENT_CAPACITY,
            market_events.events@.len() == EVENT_CAPACITY,
            market_events.events_to_process == ev_pre.events_to_process,
            market_events.total_events_count == ev_pre.total_events_count,
            market_events.market == ev_pre.market,
            forall|k: int| 0 <= k < w ==> market_events.events@[k] == remaining@[k],
            forall|k: int|
                w <= k < EVENT_CAPACITY ==> market_events.events@[k] == ev_pre.events@[k],
        decreases new_count - w,
    {
        let kept_event = remaining[w];
        market_events.events[w] = kept_event;
        w = w + 1;
    }
    let mut c: usize = new_count;
    while c < count
        invariant
            new_count <= c <= count,
            new_count == remaining@.len(),
            count <= EVENT_CAPACITY,
            count == market_events.events_to_process,
            market_events.events@.len() == EVENT_CAPACITY,
            market_events.events_to_process == ev_pre.events_to_process,
            market_events.total_events_count == ev_pre.total_events_count,
            market_events.market == ev_pre.market,
            forall|k: int| 0 <= k < new_count ==> market_events.events@[k] == remaining@[k],
            forall|k: int|
                new_count <= k < c ==> market_events.events@[k] == cleared_event(
                    market.market_account,
                ),
            forall|k: int|
                c <= k < EVENT_CAPACITY ==> market_events.events@[k] == ev_pre.events@[k],
        decreases count - c,
    {
        market_events.events[c] = Event {
            id: 0,
            order_id: 0,
            base_amount: 0,
            quote_amount: 0,
            maker: market.market_account,
            side: 0,
            event_type: 0,
        };
        c = c + 1;
    }
    market_events.events_to_process = new_count as u64;
    proof {
        assert(market_events.live_events() =~= remaining@);
        assert(market_events.events@.skip(count as int) =~= ev_pre.events@.skip(count as int));
        assert(ev_pre.events@ == old(market_events).events@);
    }
    Ok(consumed)
}

} // verus!
