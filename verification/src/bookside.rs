use vstd::prelude::*;

use crate::errors::ClobbyProgramError;
use crate::ids::AccountId;

verus! {

/// Number of order slots in every book side; the book never grows past it.
pub const BOOK_SIDE_CAPACITY: usize = 1024;

/// Trading direction of an order or of a book side.
#[derive(Clone, Copy, Debug, PartialEq, Eq, Structural)]
pub enum Side {
    Bid,
    Ask,
}

/// Storage tag of a side: bid is stored as 0, ask as 1.
pub open spec fn side_tag(side: Side) -> u64 {
    match side {
        Side::Bid => 0,
        Side::Ask => 1,
    }
}

/// Reads a side out of a tag already known to be in range.
pub open spec fn side_from_tag(tag: u64) -> Side {
    if tag == 0 {
        Side::Bid
    } else {
        Side::Ask
    }
}

/// Decodes a raw side tag, treating anything out of range as corrupt.
pub open spec fn decode_side(tag: u64) -> Result<Side, ClobbyProgramError> {
    if tag == 0 {
        Ok(Side::Bid)
    } else if tag == 1 {
        Ok(Side::Ask)
    } else {
        Err(ClobbyProgramError::InvalidBookSide)
    }
}

/// One slot of a book side.  A slot with order id 0 is a tombstone and
/// carries no economic meaning; `quote_amount` is the total quote owed or
/// owned for the order's remaining `base_amount`.
#[derive(Clone, Copy, Debug, PartialEq, Eq, Structural)]
pub struct BookSideOrder {
    pub order_id: u64,
    pub base_amount: u64,
    pub quote_amount: u64,
    pub order_authority: AccountId,
}

/// The value written into a freed slot: all amounts zero and the market
/// itself as owner, so that a stray read can never credit a participant.
pub open spec fn cleared_order(market: AccountId) -> BookSideOrder {
    BookSideOrder { order_id: 0, base_amount: 0, quote_amount: 0, order_authority: market }
}

pub open spec fn is_tombstone(o: BookSideOrder) -> bool {
    o.order_id == 0 && o.base_amount == 0 && o.quote_amount == 0
}

/// The same order with its remaining amounts replaced.
pub open spec fn with_amounts(o: BookSideOrder, base_amount: u64, quote_amount: u64) -> BookSideOrder {
    BookSideOrder { base_amount, quote_amount, ..o }
}

/// Price priority: `a` is at least as attractive as `b` to takers of the
/// opposite side, comparing quote-per-remaining-base without division: the
/// higher ratio wins on the bid side, the lower on the ask side.
pub open spec fn price_at_least(side: Side, a: BookSideOrder, b: BookSideOrder) -> bool {
    match side {
        Side::Bid => a.quote_amount * b.base_amount >= b.quote_amount * a.base_amount,
        Side::Ask => a.quote_amount * b.base_amount <= b.quote_amount * a.base_amount,
    }
}

/// Best price first: every order has price priority over its successor.
pub open spec fn sorted_by_price(side: Side, s: Seq<BookSideOrder>) -> bool {
    forall|i: int| 0 <= i < s.len() - 1 ==> price_at_least(side, #[trigger] s[i], s[i + 1])
}

/// The slot where a new order belongs: right after every resting order whose
/// price priority is at least the new order's, so equal prices keep their
/// arrival order.
pub open spec fn insert_position(side: Side, s: Seq<BookSideOrder>, o: BookSideOrder) -> int
    decreases s.len(),
{
    if s.len() == 0 {
        0
    } else if !price_at_least(side, s[0], o) {
        0
    } else {
        1 + insert_position(side, s.drop_first(), o)
    }
}

/// Total base amount carried by a sequence of orders.
pub open spec fn base_amount_sum(s: Seq<BookSideOrder>) -> int
    decreases s.len(),
{
    if s.len() == 0 {
        0
    } else {
        s[0].base_amount + base_amount_sum(s.drop_first())
    }
}

/// Whether some live slot carries this order id.
pub open spec fn has_live_order(s: Seq<BookSideOrder>, order_id: u64) -> bool {
    exists|k: int| 0 <= k < s.len() && (#[trigger] s[k]).order_id == order_id
}

/// The slot carrying this order id; meaningful only when `has_live_order`
/// holds, and unique as long as live order ids are distinct.
pub open spec fn live_index_of(s: Seq<BookSideOrder>, order_id: u64) -> int {
    choose|k: int| 0 <= k < s.len() && (#[trigger] s[k]).order_id == order_id
}

/// Removing a slot takes exactly its base amount out of the total.
pub proof fn lemma_base_sum_remove(s: Seq<BookSideOrder>, i: int)
    requires
        0 <= i < s.len(),
    ensures
        base_amount_sum(s.remove(i)) == base_amount_sum(s) - s[i].base_amount,
    decreases s.len(),
{
    if i == 0 {
        assert(s.remove(0) =~= s.drop_first());
    } else {
        lemma_base_sum_remove(s.drop_first(), i - 1);
        assert(s.remove(i).drop_first() =~= s.drop_first().remove(i - 1));
        assert(s.remove(i)[0] == s[0]);
    }
}

/// Inserting a slot adds exactly its base amount to the total.
pub proof fn lemma_base_sum_insert(s: Seq<BookSideOrder>, i: int, o: BookSideOrder)
    requires
        0 <= i <= s.len(),
    ensures
        base_amount_sum(s.insert(i, o)) == base_amount_sum(s) + o.base_amount,
    decreases s.len(),
{
    if i == 0 {
        assert(s.insert(0, o).drop_first() =~= s);
        assert(s.insert(0, o)[0] == o);
    } else {
        lemma_base_sum_insert(s.drop_first(), i - 1, o);
        assert(s.insert(i, o).drop_first() =~= s.drop_first().insert(i - 1, o));
        assert(s.insert(i, o)[0] == s[0]);
    }
}

/// Rewriting a slot shifts the total by the difference in base amounts.
pub proof fn lemma_base_sum_update(s: Seq<BookSideOrder>, i: int, o: BookSideOrder)
    requires
        0 <= i < s.len(),
    ensures
        base_amount_sum(s.update(i, o)) == base_amount_sum(s) - s[i].base_amount
            + o.base_amount,
    decreases s.len(),
{
    if i == 0 {
        assert(s.update(0, o).drop_first() =~= s.drop_first());
        assert(s.update(0, o)[0] == o);
    } else {
        lemma_base_sum_update(s.drop_first(), i - 1, o);
        assert(s.update(i, o).drop_first() =~= s.drop_first().update(i - 1, o));
        assert(s.update(i, o)[0] == s[0]);
    }
}

/// The total base amount of a region splits at any cut point.
pub proof fn lemma_base_sum_split(s: Seq<BookSideOrder>, k: int)
    requires
        0 <= k <= s.len(),
    ensures
        base_amount_sum(s) == base_amount_sum(s.take(k)) + base_amount_sum(s.skip(k)),
    decreases k,
{
    if k == 0 {
        assert(s.take(0) =~= Seq::<BookSideOrder>::empty());
        assert(s.skip(0) =~= s);
    } else {
        lemma_base_sum_split(s.drop_first(), k - 1);
        assert(s.take(k).drop_first() =~= s.drop_first().take(k - 1));
        assert(s.skip(k) =~= s.drop_first().skip(k - 1));
        assert(s.take(k)[0] == s[0]);
    }
}

/// Total quote amount carried by a sequence of orders.
pub open spec fn quote_amount_sum(s: Seq<BookSideOrder>) -> int
    decreases s.len(),
{
    if s.len() == 0 {
        0
    } else {
        s[0].quote_amount + quote_amount_sum(s.drop_first())
    }
}

/// The total quote amount of a region splits at any cut point.
pub proof fn lemma_quote_sum_split(s: Seq<BookSideOrder>, k: int)
    requires
        0 <= k <= s.len(),
    ensures
        quote_amount_sum(s) == quote_amount_sum(s.take(k)) + quote_amount_sum(s.skip(k)),
    decreases k,
{
    if k == 0 {
        assert(s.take(0) =~= Seq::<BookSideOrder>::empty());
        assert(s.skip(0) =~= s);
    } else {
        lemma_quote_sum_split(s.drop_first(), k - 1);
        assert(s.take(k).drop_first() =~= s.drop_first().take(k - 1));
        assert(s.skip(k) =~= s.drop_first().skip(k - 1));
        assert(s.take(k)[0] == s[0]);
    }
}

/// The survivors of a compaction: the sequence with its tombstones squeezed
/// out, everything else kept in its original order.
pub open spec fn compacted(s: Seq<BookSideOrder>) -> Seq<BookSideOrder>
    decreases s.len(),
{
    if s.len() == 0 {
        Seq::empty()
    } else if is_tombstone(s[0]) {
        compacted(s.drop_first())
    } else {
        seq![s[0]] + compacted(s.drop_first())
    }
}

/// The product of two u64 values fits in a u128.
pub proof fn lemma_mul_u64_fits_u128(a: u64, b: u64)
    ensures
        a * b <= u128::MAX,
{
    assert((a as int) * (b as int) <= (u64::MAX as int) * (u64::MAX as int)) by (nonlinear_arith)
        requires
            a <= u64::MAX,
            b <= u64::MAX,
    ;
}

/// Price priority is transitive across orders with positive base amounts.
pub proof fn lemma_price_at_least_trans(side: Side, a: BookSideOrder, b: BookSideOrder, c: BookSideOrder)
    requires
        a.base_amount > 0,
        b.base_amount > 0,
        c.base_amount > 0,
        price_at_least(side, a, b),
        price_at_least(side, b, c),
    ensures
        price_at_least(side, a, c),
{
    match side {
        Side::Bid => {
            assert(a.quote_amount * c.base_amount >= c.quote_amount * a.base_amount)
                by (nonlinear_arith)
                requires
                    a.quote_amount * b.base_amount >= b.quote_amount * a.base_amount,
                    b.quote_amount * c.base_amount >= c.quote_amount * b.base_amount,
                    a.base_amount > 0,
                    b.base_amount > 0,
                    c.base_amount > 0,
            ;
        },
        Side::Ask => {
            assert(a.quote_amount * c.base_amount <= c.quote_amount * a.base_amount)
                by (nonlinear_arith)
                requires
                    a.quote_amount * b.base_amount <= b.quote_amount * a.base_amount,
                    b.quote_amount * c.base_amount <= c.quote_amount * b.base_amount,
                    a.base_amount > 0,
                    b.base_amount > 0,
                    c.base_amount > 0,
            ;
        },
    }
}

/// In a sorted sequence of live orders, every order has price priority over
/// every later order, not just its direct successor.
pub proof fn lemma_sorted_pairwise(side: Side, s: Seq<BookSideOrder>, i: int, j: int)
    requires
        sorted_by_price(side, s),
        forall|k: int| 0 <= k < s.len() ==> (#[trigger] s[k]).base_amount > 0,
        0 <= i <= j < s.len(),
    ensures
        price_at_least(side, s[i], s[j]),
    decreases j - i,
{
    if i == j {
        assert(price_at_least(side, s[i], s[i])) by {
            match side {
                Side::Bid => {},
                Side::Ask => {},
            }
        }
    } else if i + 1 == j {
        assert(price_at_least(side, s[i], s[i + 1]));
    } else {
        lemma_sorted_pairwise(side, s, i, j - 1);
        assert(price_at_least(side, s[j - 1], s[j]));
        lemma_price_at_least_trans(side, s[i], s[j - 1], s[j]);
    }
}

/// Removing one order from a sorted sequence of live orders leaves it
/// sorted: the survivors keep their relative price order.
pub proof fn lemma_sorted_remove(side: Side, s: Seq<BookSideOrder>, i: int)
    requires
        sorted_by_price(side, s),
        forall|k: int| 0 <= k < s.len() ==> (#[trigger] s[k]).base_amount > 0,
        0 <= i < s.len(),
    ensures
        sorted_by_price(side, s.remove(i)),
{
    let r = s.remove(i);
    assert forall|k: int| 0 <= k < r.len() - 1 implies price_at_least(side, #[trigger] r[k], r[k + 1]) by {
        if k + 1 < i {
            assert(r[k] == s[k] && r[k + 1] == s[k + 1]);
        } else if k + 1 == i {
            assert(r[k] == s[k] && r[k + 1] == s[k + 2]);
            lemma_sorted_pairwise(side, s, k, k + 2);
        } else {
            assert(r[k] == s[k + 1] && r[k + 1] == s[k + 2]);
        }
    }
}

/// Characterizes `insert_position` by what the insertion scan observes: `p`
/// is the position exactly when everything before `p` has priority over the
/// new order and the order at `p`, if any, does not.
pub proof fn lemma_insert_position_char(side: Side, s: Seq<BookSideOrder>, o: BookSideOrder, p: int)
    requires
        0 <= p <= s.len(),
        forall|k: int| 0 <= k < p ==> price_at_least(side, #[trigger] s[k], o),
        p < s.len() ==> !price_at_least(side, s[p], o),
    ensures
        insert_position(side, s, o) == p,
    decreases s.len(),
{
    if s.len() == 0 {
    } else if p == 0 {
    } else {
        assert(price_at_least(side, s[0], o));
        let t = s.drop_first();
        assert forall|k: int| 0 <= k < p - 1 implies price_at_least(side, #[trigger] t[k], o) by {
            assert(t[k] == s[k + 1]);
        }
        assert(p - 1 < t.len() ==> !price_at_least(side, t[p - 1], o));
        lemma_insert_position_char(side, t, o, p - 1);
    }
}

/// Inserting a live order at its insert position keeps the book sorted.
pub proof fn lemma_sorted_insert(side: Side, s: Seq<BookSideOrder>, o: BookSideOrder, p: int)
    requires
        sorted_by_price(side, s),
        forall|k: int| 0 <= k < s.len() ==> (#[trigger] s[k]).base_amount > 0,
        o.base_amount > 0,
        0 <= p <= s.len(),
        forall|k: int| 0 <= k < p ==> price_at_least(side, #[trigger] s[k], o),
        p < s.len() ==> !price_at_least(side, s[p], o),
    ensures
        sorted_by_price(side, s.insert(p, o)),
{
    let r = s.insert(p, o);
    assert forall|k: int| 0 <= k < r.len() - 1 implies price_at_least(side, #[trigger] r[k], r[k + 1]) by {
        if k + 1 < p {
            assert(r[k] == s[k] && r[k + 1] == s[k + 1]);
        } else if k + 1 == p {
            assert(r[k] == s[k] && r[k + 1] == o);
        } else if k == p {
            assert(r[k] == o && r[k + 1] == s[p]);
            assert(!price_at_least(side, s[p], o));
            match side {
                Side::Bid => {},
                Side::Ask => {},
            }
        } else {
            assert(r[k] == s[k - 1] && r[k + 1] == s[k]);
        }
    }
}

/// Squeezing the tombstones out of a region with no tombstones changes
/// nothing: compaction is a no-op on a fully live region.
pub proof fn lemma_compaction_no_tombstones(s: Seq<BookSideOrder>)
    requires
        forall|k: int| 0 <= k < s.len() ==> !is_tombstone(#[trigger] s[k]),
    ensures
        compacted(s) == s,
    decreases s.len(),
{
    if s.len() == 0 {
        assert(compacted(s) =~= s);
    } else {
        lemma_compaction_no_tombstones(s.drop_first());
        assert(compacted(s) =~= s);
    }
}

/// Tombstoning one slot of a fully live region and compacting is the same
/// as removing that slot and shifting the survivors left.
pub proof fn lemma_remove_is_compaction(s: Seq<BookSideOrder>, i: int, t: BookSideOrder)
    requires
        0 <= i < s.len(),
        forall|k: int| 0 <= k < s.len() ==> !is_tombstone(#[trigger] s[k]),
        is_tombstone(t),
    ensures
        compacted(s.update(i, t)) == s.remove(i),
    decreases s.len(),
{
    let u = s.update(i, t);
    if i == 0 {
        assert(u.drop_first() =~= s.remove(0));
        lemma_compaction_no_tombstones(s.remove(0));
    } else {
        assert(!is_tombstone(u[0]));
        lemma_remove_is_compaction(s.drop_first(), i - 1, t);
        assert(u.drop_first() =~= s.drop_first().update(i - 1, t));
        assert(compacted(u) =~= seq![s[0]] + compacted(u.drop_first()));
        assert(seq![s[0]] + s.drop_first().remove(i - 1) =~= s.remove(i));
    }
}

/// Compares two orders' price priority for the given side, using wide
/// intermediates so the cross products cannot overflow.
pub fn price_at_least_exec(side: Side, a: &BookSideOrder, b: &BookSideOrder) -> (r: bool)
    ensures
        r == price_at_least(side, *a, *b),
{
    proof {
        lemma_mul_u64_fits_u128(a.quote_amount, b.base_amount);
        lemma_mul_u64_fits_u128(b.quote_amount, a.base_amount);
    }
    let left: u128 = (a.quote_amount as u128) * (b.base_amount as u128);
    let right: u128 = (b.quote_amount as u128) * (a.base_amount as u128);
    match side {
        Side::Bid => left >= right,
        Side::Ask => left <= right,
    }
}

/// A fixed-capacity, price-ordered array of resting orders for one trading
/// direction.  Slots `[0, order_count)` are live and sorted best price
/// first; every slot past `order_count` is a tombstone.
#[derive(Clone, Debug)]
pub struct BookSide {
    /// Raw side tag: 0 for bid, 1 for ask.  Validated on every read.
    pub side: u64,
    /// Number of live orders.
    pub order_count: u64,
    /// The market this book belongs to.
    pub market_account: AccountId,
    /// The order slots; always exactly `BOOK_SIDE_CAPACITY` of them.
    pub orders: Vec<BookSideOrder>,
}

impl BookSide {
    /// The live region of the book: slots `[0, order_count)`.
    pub open spec fn live_orders(&self) -> Seq<BookSideOrder> {
        self.orders@.take(self.order_count as int)
    }

    /// Structural well-formedness: full backing array, live orders are
    /// non-tombstones with distinct ids sorted by the side's price rule, and
    /// everything past the live region is a tombstone.
    pub open spec fn wf(&self) -> bool {
        &&& self.orders@.len() == BOOK_SIDE_CAPACITY
        &&& self.order_count <= BOOK_SIDE_CAPACITY
        &&& forall|i: int|
            self.order_count <= i < BOOK_SIDE_CAPACITY ==> is_tombstone(#[trigger] self.orders@[i])
        &&& forall|i: int|
            0 <= i < self.order_count ==> (#[trigger] self.orders@[i]).order_id != 0
                && self.orders@[i].base_amount >= 1
        &&& forall|i: int, j: int|
            0 <= i < j < self.order_count ==> (#[trigger] self.orders@[i]).order_id != (
            #[trigger] self.orders@[j]).order_id
        &&& self.side == 0 ==> sorted_by_price(Side::Bid, self.live_orders())
        &&& self.side == 1 ==> sorted_by_price(Side::Ask, self.live_orders())
    }

    /// Reads the side tag, rejecting anything that is not bid (0) or ask (1).
    pub fn get_side_in_enum(&self) -> (r: Result<Side, ClobbyProgramError>)
        ensures
            r == decode_side(self.side),
    {
        if self.side == 0 {
            Ok(Side::Bid)
        } else if self.side == 1 {
            Ok(Side::Ask)
        } else {
            Err(ClobbyProgramError::InvalidBookSide)
        }
    }

    /// A zero-initialized book for one side of a market: no live orders,
    /// every slot a tombstone owned by the market.
    pub fn new(side: Side, market_account: AccountId) -> (book: BookSide)
        ensures
            book.wf(),
            book.side == side_tag(side),
            book.order_count == 0,
            book.market_account == market_account,
            book.live_orders() == Seq::<BookSideOrder>::empty(),
    {
        let mut orders: Vec<BookSideOrder> = Vec::new();
        let mut i: usize = 0;
        while i < BOOK_SIDE_CAPACITY
            invariant
                i <= BOOK_SIDE_CAPACITY,
                orders@.len() == i,
                forall|k: int| 0 <= k < i ==> #[trigger] orders@[k] == cleared_order(market_account),
            decreases BOOK_SIDE_CAPACITY - i,
        {
            orders.push(BookSideOrder {
                order_id: 0,
                base_amount: 0,
                quote_amount: 0,
                order_authority: market_account,
            });
            i = i + 1;
        }
        let book = BookSide {
            side: match side {
                Side::Bid => 0,
                Side::Ask => 1,
            },
            order_count: 0,
            market_account,
            orders,
        };
        proof {
            assert(book.live_orders() =~= Seq::<BookSideOrder>::empty());
        }
        book
    }

    /// The order with the best price, which always sits at index 0.
    pub fn best(&self) -> (r: Option<BookSideOrder>)
        requires
            self.wf(),
        ensures
            r == (if self.order_count == 0 {
                None::<BookSideOrder>
            } else {
                Some(self.live_orders()[0])
            }),
    {
        if self.order_count == 0 {
            None
        } else {
            Some(self.orders[0])
        }
    }

    /// Linear scan of the live region for an order id.
    pub fn find_order_index(&self, order_id: u64) -> (r: Option<usize>)
        requires
            self.wf(),
        ensures
            match r {
                Some(i) => i < self.order_count
                    && self.live_orders()[i as int].order_id == order_id,
                None => forall|k: int|
                    0 <= k < self.order_count ==> (#[trigger] self.live_orders()[k]).order_id
                        != order_id,
            },
    {
        let count = self.order_count as usize;
        let mut i: usize = 0;
        while i < count
            invariant
                self.wf(),
                count == self.order_count,
                i <= count,
                forall|k: int| 0 <= k < i ==> (#[trigger] self.live_orders()[k]).order_id != order_id,
            decreases count - i,
        {
            if self.orders[i].order_id == order_id {
                return Some(i);
            }
            i = i + 1;
        }
        None
    }

    /// Inserts a fresh live order into the slot its price calls for, shifting
    /// worse-priced orders one slot toward the tail; equal prices keep their
    /// arrival order.  Returns the index the order landed in.
    #[verifier::rlimit(60)]
    pub fn insert(&mut self, order: BookSideOrder) -> (idx: usize)
        requires
            old(self).wf(),
            old(self).side == 0 || old(self).side == 1,
            old(self).order_count < BOOK_SIDE_CAPACITY,
            order.order_id != 0,
            order.base_amount >= 1,
            forall|k: int|
                0 <= k < old(self).order_count ==> (#[trigger] old(self).live_orders()[k]).order_id
                    != order.order_id,
        ensures
            final(self).wf(),
            final(self).side == old(self).side,
            final(self).market_account == old(self).market_account,
            final(self).order_count == old(self).order_count + 1,
            idx <= old(self).order_count,
            idx == insert_position(side_from_tag(old(self).side), old(self).live_orders(), order),
            final(self).live_orders() == old(self).live_orders().insert(idx as int, order),
            final(self).orders@ == old(self).orders@.insert(idx as int, order).drop_last(),
    {
        let side_e = if self.side == 0 {
            Side::Bid
        } else {
            Side::Ask
        };
        let count = self.order_count as usize;
        let ghost s = self.live_orders();
        let mut p: usize = 0;
        let mut scanning = true;
        while scanning
            invariant
                p <= count,
                count == self.order_count,
                self.wf(),
                s == self.live_orders(),
                side_e == side_from_tag(self.side),
                forall|k: int| 0 <= k < p ==> price_at_least(side_e, #[trigger] s[k], order),
                !scanning ==> p == count || !price_at_least(side_e, s[p as int], order),
            decreases count - p + (if scanning { 1int } else { 0int }),
        {
            if p < count {
                if price_at_least_exec(side_e, &self.orders[p], &order) {
                    p = p + 1;
                } else {
                    scanning = false;
                }
            } else {
                scanning = false;
            }
        }
        proof {
            lemma_insert_position_char(side_e, s, order, p as int);
            lemma_sorted_insert(side_e, s, order, p as int);
        }
        let ghost old_orders = self.orders@;
        self.orders.insert(p, order);
        let _ = self.orders.pop();
        self.order_count = self.order_count + 1;
        proof {
            let ns = s.insert(p as int, order);
            assert(self.orders@ =~= old_orders.insert(p as int, order).drop_last());
            assert(self.live_orders() =~= ns);
            assert forall|i: int|
                self.order_count <= i < BOOK_SIDE_CAPACITY implies is_tombstone(
                #[trigger] self.orders@[i],
            ) by {
                assert(self.orders@[i] == old_orders[i - 1]);
            }
            assert forall|i: int, j: int|
                0 <= i < j < self.order_count implies (#[trigger] self.orders@[i]).order_id != (
            #[trigger] self.orders@[j]).order_id by {
                assert(self.orders@[i] == ns[i] && self.orders@[j] == ns[j]);
                assert(ns[i] == if i < p { s[i] } else if i == p { order } else { s[i - 1] });
                assert(ns[j] == if j < p { s[j] } else if j == p { order } else { s[j - 1] });
            }
            assert(self.wf());
        }
        p
    }

    /// Retires the order at `index`: shifts every later live order one slot
    /// left, tombstones the freed tail slot and decrements the live count.
    /// The survivors keep their relative price order, so this is exactly a
    /// compaction of the book with that one slot tombstoned.
    pub fn remove_and_compact(&mut self, index: usize)
        requires
            old(self).wf(),
            index < old(self).order_count,
        ensures
            final(self).wf(),
            final(self).side == old(self).side,
            final(self).market_account == old(self).market_account,
            final(self).order_count == old(self).order_count - 1,
            final(self).live_orders() == old(self).live_orders().remove(index as int),
            final(self).orders@ == old(self).orders@.remove(index as int).push(
                cleared_order(old(self).market_account),
            ),
    {
        let ghost s = self.live_orders();
        let ghost old_orders = self.orders@;
        let market = self.market_account;
        let _ = self.orders.remove(index);
        self.orders.push(BookSideOrder {
            order_id: 0,
            base_amount: 0,
            quote_amount: 0,
            order_authority: market,
        });
        self.order_count = self.order_count - 1;
        proof {
            assert(self.live_orders() =~= s.remove(index as int));
            if self.side == 0 {
                lemma_sorted_remove(Side::Bid, s, index as int);
            }
            if self.side == 1 {
                lemma_sorted_remove(Side::Ask, s, index as int);
            }
            assert forall|i: int|
                self.order_count <= i < BOOK_SIDE_CAPACITY implies is_tombstone(
                #[trigger] self.orders@[i],
            ) by {
                if i < BOOK_SIDE_CAPACITY - 1 {
                    assert(self.orders@[i] == old_orders[i + 1]);
                }
            }
        }
    }

    /// Rewrites the remaining amounts of the best order after a partial
    /// fill.  The caller must have checked that the reduced order still has
    /// price priority over its successor, which the side-aware rounding of
    /// fill quotes guarantees.
    pub fn reduce_best(&mut self, base_amount: u64, quote_amount: u64) -> (edited: BookSideOrder)
        requires
            old(self).wf(),
            old(self).side == 0 || old(self).side == 1,
            old(self).order_count >= 1,
            base_amount >= 1,
            old(self).order_count >= 2 ==> price_at_least(
                side_from_tag(old(self).side),
                with_amounts(old(self).live_orders()[0], base_amount, quote_amount),
                old(self).live_orders()[1],
            ),
        ensures
            final(self).wf(),
            final(self).side == old(self).side,
            final(self).market_account == old(self).market_account,
            final(self).order_count == old(self).order_count,
            edited == with_amounts(old(self).live_orders()[0], base_amount, quote_amount),
            final(self).live_orders() == old(self).live_orders().update(0, edited),
            final(self).orders@ == old(self).orders@.update(0, edited),
    {
        let o = self.orders[0];
        let edited = BookSideOrder {
            order_id: o.order_id,
            base_amount,
            quote_amount,
            order_authority: o.order_authority,
        };
        let ghost s = self.live_orders();
        self.orders[0] = edited;
        proof {
            assert(self.live_orders() =~= s.update(0, edited));
        }
        edited
    }
}

/// Creates the zero-initialized bid/ask pair for a market.
pub fn create_book_side(market_account: AccountId) -> (books: (BookSide, BookSide))
    ensures
        books.0.wf() && books.1.wf(),
        books.0.side == 0 && books.1.side == 1,
        books.0.order_count == 0 && books.1.order_count == 0,
        books.0.market_account == market_account && books.1.market_account == market_account,
        books.0.live_orders() == Seq::<BookSideOrder>::empty(),
        books.1.live_orders() == Seq::<BookSideOrder>::empty(),
{
    let bids = BookSide::new(Side::Bid, market_account);
    let asks = BookSide::new(Side::Ask, market_account);
    (bids, asks)
}

} // verus!
