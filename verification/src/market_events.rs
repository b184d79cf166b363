use vstd::prelude::*;

use crate::bookside::{decode_side, side_tag, Side};
use crate::errors::ClobbyProgramError;
use crate::ids::AccountId;

verus! {

/// Number of event slots in the log.
pub const EVENT_CAPACITY: usize = 512;

/// Slots always kept free below capacity: the admission check refuses any
/// append that would leave fewer than this many slots unused.
pub const EVENT_SAFETY_MARGIN: u64 = 6;

/// What happened to a resting order: it was (partially) filled, or it left
/// the book with its remaining amounts owed back to its owner.
#[derive(Clone, Copy, Debug, PartialEq, Eq, Structural)]
pub enum EventType {
    Fill,
    Out,
}

/// Storage tag of an event kind: fill is stored as 0, out as 1.
pub open spec fn event_type_tag(kind: EventType) -> u64 {
    match kind {
        EventType::Fill => 0,
        EventType::Out => 1,
    }
}

/// Decodes a raw event kind tag, treating anything out of range as corrupt.
pub open spec fn decode_event_type(tag: u64) -> Result<EventType, ClobbyProgramError> {
    if tag == 0 {
        Ok(EventType::Fill)
    } else if tag == 1 {
        Ok(EventType::Out)
    } else {
        Err(ClobbyProgramError::InvalidEventType)
    }
}

/// One recorded match or removal awaiting settlement bookkeeping.
#[derive(Clone, Copy, Debug, PartialEq, Eq, Structural)]
pub struct Event {
    /// Monotonic event id, assigned by the log.
    pub id: u64,
    /// The resting order this event is about.
    pub order_id: u64,
    pub base_amount: u64,
    pub quote_amount: u64,
    /// Owner of the resting order, to be credited on consumption.
    pub maker: AccountId,
    /// Raw side tag of the resting order: 0 bid, 1 ask.
    pub side: u64,
    /// Raw kind tag: 0 fill, 1 out.
    pub event_type: u64,
}

/// The value left in a consumed slot: everything zero and the market itself
/// as maker.
pub open spec fn cleared_event(market: AccountId) -> Event {
    Event {
        id: 0,
        order_id: 0,
        base_amount: 0,
        quote_amount: 0,
        maker: market,
        side: 0,
        event_type: 0,
    }
}

impl Event {
    /// Reads the side tag, rejecting anything that is not bid (0) or ask (1).
    pub fn get_side_in_enum(&self) -> (r: Result<Side, ClobbyProgramError>)
        ensures
            r == decode_side(self.side),
    {
        if self.side == 0 {
            Ok(Side::Bid)
        } else if self.side == 1 {
            Ok(Side::Ask)
        } else {
            Err(ClobbyProgramError::InvalidBookSide)
        }
    }

    /// Reads the kind tag, rejecting anything that is not fill (0) or out (1).
    pub fn get_event_in_enum(&self) -> (r: Result<EventType, ClobbyProgramError>)
        ensures
            r == decode_event_type(self.event_type),
    {
        if self.event_type == 0 {
            Ok(EventType::Fill)
        } else if self.event_type == 1 {
            Ok(EventType::Out)
        } else {
            Err(ClobbyProgramError::InvalidEventType)
        }
    }

    /// Tombstones a consumed event, handing the slot to the market.
    pub fn remove(&mut self, market: AccountId)
        ensures
            *final(self) == cleared_event(market),
    {
        self.base_amount = 0;
        self.quote_amount = 0;
        self.maker = market;
        self.order_id = 0;
        self.event_type = 0;
        self.side = 0;
        self.id = 0;
    }
}

/// What a producer hands to the log; the log itself assigns the event id.
#[derive(Clone, Copy, Debug)]
pub struct EventParams {
    pub order_id: u64,
    pub maker: AccountId,
    pub side: Side,
    pub event_type: EventType,
    pub base_amount: u64,
    pub quote_amount: u64,
}

/// The stored form of an appended event.
pub open spec fn event_of(params: EventParams, id: u64) -> Event {
    Event {
        id,
        order_id: params.order_id,
        base_amount: params.base_amount,
        quote_amount: params.quote_amount,
        maker: params.maker,
        side: side_tag(params.side),
        event_type: event_type_tag(params.event_type),
    }
}

/// Total base amount recorded in a sequence of events.
pub open spec fn event_base_sum(s: Seq<Event>) -> int
    decreases s.len(),
{
    if s.len() == 0 {
        0
    } else {
        s[0].base_amount + event_base_sum(s.drop_first())
    }
}

/// Total quote amount recorded in a sequence of events.
pub open spec fn event_quote_sum(s: Seq<Event>) -> int
    decreases s.len(),
{
    if s.len() == 0 {
        0
    } else {
        s[0].quote_amount + event_quote_sum(s.drop_first())
    }
}

/// Appending an event adds exactly its amounts to the recorded totals.
pub proof fn lemma_event_sums_push(s: Seq<Event>, e: Event)
    ensures
        event_base_sum(s.push(e)) == event_base_sum(s) + e.base_amount,
        event_quote_sum(s.push(e)) == event_quote_sum(s) + e.quote_amount,
    decreases s.len(),
{
    let p = s.push(e);
    assert(p.len() == s.len() + 1);
    assert(event_base_sum(p) == p[0].base_amount + event_base_sum(p.drop_first()));
    assert(event_quote_sum(p) == p[0].quote_amount + event_quote_sum(p.drop_first()));
    if s.len() == 0 {
        assert(p.drop_first() =~= Seq::<Event>::empty());
        assert(event_base_sum(p.drop_first()) == 0);
        assert(event_quote_sum(p.drop_first()) == 0);
        assert(p[0] == e);
        assert(event_base_sum(s) == 0);
        assert(event_quote_sum(s) == 0);
    } else {
        lemma_event_sums_push(s.drop_first(), e);
        assert(p.drop_first() =~= s.drop_first().push(e));
        assert(p[0] == s[0]);
        assert(event_base_sum(s) == s[0].base_amount + event_base_sum(s.drop_first()));
        assert(event_quote_sum(s) == s[0].quote_amount + event_quote_sum(s.drop_first()));
    }
}

/// A fixed-capacity append log of events awaiting consumption.  Slots
/// `[0, events_to_process)` are the unconsumed events, oldest first.
#[derive(Clone, Debug)]
pub struct MarketEvents {
    /// The market this log belongs to.
    pub market: AccountId,
    /// Number of unconsumed events.
    pub events_to_process: u64,
    /// Events ever appended; monotonic, used to assign event ids.
    pub total_events_count: u64,
    /// The event slots; always exactly `EVENT_CAPACITY` of them.
    pub events: Vec<Event>,
}

impl MarketEvents {
    /// The unconsumed events: slots `[0, events_to_process)`.
    pub open spec fn live_events(&self) -> Seq<Event> {
        self.events@.take(self.events_to_process as int)
    }

    pub open spec fn wf(&self) -> bool {
        &&& self.events@.len() == EVENT_CAPACITY
        &&& self.events_to_process <= EVENT_CAPACITY
    }

    /// A zero-initialized log for a market: nothing to process, every slot
    /// cleared.
    pub fn new(market: AccountId) -> (log: MarketEvents)
        ensures
            log.wf(),
            log.market == market,
            log.events_to_process == 0,
            log.total_events_count == 0,
            log.live_events() == Seq::<Event>::empty(),
            forall|i: int| 0 <= i < EVENT_CAPACITY ==> #[trigger] log.events@[i] == cleared_event(market),
    {
        let mut events: Vec<Event> = Vec::new();
        let mut i: usize = 0;
        while i < EVENT_CAPACITY
            invariant
                i <= EVENT_CAPACITY,
                events@.len() == i,
                forall|k: int| 0 <= k < i ==> #[trigger] events@[k] == cleared_event(market),
            decreases EVENT_CAPACITY - i,
        {
            events.push(Event {
                id: 0,
                order_id: 0,
                base_amount: 0,
                quote_amount: 0,
                maker: market,
                side: 0,
                event_type: 0,
            });
            i = i + 1;
        }
        let log = MarketEvents { market, events_to_process: 0, total_events_count: 0, events };
        proof {
            assert(log.live_events() =~= Seq::<Event>::empty());
        }
        log
    }

    /// The admission check: can `events_to_add` more events be appended
    /// while still leaving the safety margin free?  Every producer must ask
    /// this before its first append, so a call either fully succeeds or
    /// appends nothing.
    pub fn can_add_event(&self, events_to_add: usize) -> (r: bool)
        requires
            self.wf(),
        ensures
            r == (self.events_to_process + events_to_add + EVENT_SAFETY_MARGIN
                <= EVENT_CAPACITY),
    {
        if events_to_add > EVENT_CAPACITY {
            false
        } else {
            self.events_to_process + (events_to_add as u64) + EVENT_SAFETY_MARGIN
                <= (EVENT_CAPACITY as u64)
        }
    }

    /// Appends one event at the end of the unconsumed region, assigning it
    /// the next monotonic id.
    pub fn add_event(&mut self, params: EventParams)
        requires
            old(self).wf(),
            old(self).events_to_process < EVENT_CAPACITY,
            old(self).total_events_count < u64::MAX,
        ensures
            final(self).wf(),
            final(self).market == old(self).market,
            final(self).events_to_process == old(self).events_to_process + 1,
            final(self).total_events_count == old(self).total_events_count + 1,
            final(self).events@ == old(self).events@.update(
                old(self).events_to_process as int,
                event_of(params, (old(self).total_events_count + 1) as u64),
            ),
            final(self).live_events() == old(self).live_events().push(
                event_of(params, (old(self).total_events_count + 1) as u64),
            ),
    {
        let index = self.events_to_process as usize;
        let event_type: u64 = match params.event_type {
            EventType::Fill => 0,
            EventType::Out => 1,
        };
        let order_side: u64 = match params.side {
            Side::Bid => 0,
            Side::Ask => 1,
        };
        let event_id = self.total_events_count + 1;
        self.events[index] = Event {
            base_amount: params.base_amount,
            quote_amount: params.quote_amount,
            maker: params.maker,
            order_id: params.order_id,
            id: event_id,
            event_type,
            side: order_side,
        };
        self.events_to_process = self.events_to_process + 1;
        self.total_events_count = self.total_events_count + 1;
        proof {
            assert(self.live_events() =~= old(self).live_events().push(
                event_of(params, (old(self).total_events_count + 1) as u64),
            ));
        }
    }
}

} // verus!
