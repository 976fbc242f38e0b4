use vstd::prelude::*;
use crate::ledger::{can_settle, lemma_mul_fits, settle, AccountKey, Ledger, LedgerError};
use crate::orderbook::{
    after_cancel, cancel_target, crosses, entry_time, fill_of, lemma_walk, level_view, levels, match_walk, opposite,
    owned_by, quote_walk, with_entry, Orderbook,
};
use crate::types::{
    CancelOrderPayload, CreateOrderPayload, Fill, GetOpenOrdersPayload, MessageToApi, OpenOrders, Order,
    OrderCancelledPayload, OrderPlacedPayload, OrderSide,
};

verus! {

/// The message of an order refused for want of funds.
pub open spec fn insufficient_text() -> Seq<char> {
    "Insufficient balance for trade"@
}

/// The message of an order refused because its id already rests.
pub open spec fn duplicate_text() -> Seq<char> {
    "Duplicate order id"@
}

/// The message of a cancellation that removed an order.
pub open spec fn cancelled_text() -> Seq<char> {
    "ORDER CANCELLED"@
}

/// The message of a cancellation that found no such order.
pub open spec fn not_found_text() -> Seq<char> {
    "Order not found"@
}

/// The account that an order on `side` escrows in a market trading `base`
/// against `quote`: a bid locks the quote asset, an ask the base asset.
pub open spec fn escrow_key(user: Seq<char>, side: OrderSide, base: Seq<char>, quote: Seq<char>) -> AccountKey {
    match side {
        OrderSide::Bid => (user, quote),
        OrderSide::Ask => (user, base),
    }
}

/// What an order on `side` at `price` for `quantity` escrows: its value
/// for a bid, its quantity for an ask.
pub open spec fn escrow_amount(side: OrderSide, price: u64, quantity: u64) -> int {
    match side {
        OrderSide::Bid => price * quantity,
        OrderSide::Ask => quantity as int,
    }
}

/// The ledger effect of one fill of a taker on `side` with limit `limit`:
/// a buying taker's escrow was locked at its limit, a resting buyer's at the
/// fill's own price.
pub open spec fn settle_one(
    m: Map<AccountKey, (u64, u64)>,
    f: Fill,
    taker: Seq<char>,
    side: OrderSide,
    base: Seq<char>,
    quote: Seq<char>,
    limit: u64,
) -> Map<AccountKey, (u64, u64)> {
    match side {
        OrderSide::Bid => settle(m, taker, f.user_id@, base, quote, f.price as int, f.quantity as int, limit as int),
        OrderSide::Ask => settle(m, f.user_id@, taker, base, quote, f.price as int, f.quantity as int, f.price as int),
    }
}

pub open spec fn can_settle_one(
    m: Map<AccountKey, (u64, u64)>,
    f: Fill,
    taker: Seq<char>,
    side: OrderSide,
    base: Seq<char>,
    quote: Seq<char>,
    limit: u64,
) -> bool {
    match side {
        OrderSide::Bid => can_settle(m, taker, f.user_id@, base, quote, f.price as int, f.quantity as int, limit as int),
        OrderSide::Ask => can_settle(m, f.user_id@, taker, base, quote, f.price as int, f.quantity as int, f.price as int),
    }
}

/// The ledger after settling the fills `fs` in order.
pub open spec fn settle_all(
    m: Map<AccountKey, (u64, u64)>,
    fs: Seq<Fill>,
    taker: Seq<char>,
    side: OrderSide,
    base: Seq<char>,
    quote: Seq<char>,
    limit: u64,
) -> Map<AccountKey, (u64, u64)>
    decreases fs.len(),
{
    if fs.len() == 0 {
        m
    } else {
        settle_one(settle_all(m, fs.drop_last(), taker, side, base, quote, limit), fs.last(), taker, side, base, quote, limit)
    }
}

/// Each of the fills `fs` can be settled on the ledger that the ones before
/// it leave.
pub open spec fn all_settle(
    m: Map<AccountKey, (u64, u64)>,
    fs: Seq<Fill>,
    taker: Seq<char>,
    side: OrderSide,
    base: Seq<char>,
    quote: Seq<char>,
    limit: u64,
) -> bool
    decreases fs.len(),
{
    if fs.len() == 0 {
        true
    } else {
        all_settle(m, fs.drop_last(), taker, side, base, quote, limit) && can_settle_one(
            settle_all(m, fs.drop_last(), taker, side, base, quote, limit),
            fs.last(),
            taker,
            side,
            base,
            quote,
            limit,
        )
    }
}

/// The well-formed state of one market: its book, and the ledger it shares.
pub open spec fn market_wf(book: &Orderbook, ledger: &Ledger) -> bool {
    book.wf() && ledger.wf()
}

/// The outcome of `handle_create_order` on a market in state (`b0`, `l0`),
/// leaving it in (`b1`, `l1`) with result `r`.
pub open spec fn create_order_done(
    b0: Orderbook,
    l0: Ledger,
    p: CreateOrderPayload,
    order_id: String,
    timestamp: i64,
    b1: Orderbook,
    l1: Ledger,
    r: Result<(MessageToApi, Vec<Fill>), LedgerError>,
) -> bool {
    let base = b0.base_asset@;
    let quote = b0.quote_asset@;
    let k = escrow_key(p.user_id@, p.side, base, quote);
    let amount = escrow_amount(p.side, p.price, p.quantity);
    let can_lock = l0.view().contains_key(k) && amount <= l0.view()[k].0 - l0.view()[k].1;
    let locked = l0.view().insert(k, (l0.view()[k].0, (l0.view()[k].1 + amount) as u64));
    let w = match_walk(b0.side_view(opposite(p.side)), p.side, p.price, p.quantity);
    let incoming = Order {
        id: order_id,
        user_id: p.user_id,
        price: p.price,
        quantity: w.2,
        side: p.side,
        timestamp: entry_time(b0.side_view(p.side), timestamp),
    };
    &&& b1.base_asset == b0.base_asset
    &&& b1.quote_asset == b0.quote_asset
    &&& if b0.rests(order_id@) {
        &&& r matches Ok((MessageToApi::OrderCancelled { payload: c }, fs))
        &&& c.message matches Some(m) && m@ == duplicate_text()
        &&& fs@.len() == 0
        &&& b1.bids@ == b0.bids@
        &&& b1.asks@ == b0.asks@
        &&& l1.view() == l0.view()
    } else if !can_lock {
        &&& r matches Ok((MessageToApi::OrderCancelled { payload: c }, fs))
        &&& c.message matches Some(m) && m@ == insufficient_text()
        &&& fs@.len() == 0
        &&& b1.bids@ == b0.bids@
        &&& b1.asks@ == b0.asks@
        &&& l1.view() == l0.view()
    } else {
        &&& (r is Ok) == all_settle(locked, w.0, p.user_id@, p.side, base, quote, p.price)
        &&& r matches Ok((msg, fs)) ==> {
            &&& b1.side_view(opposite(p.side)) == w.1
            &&& b1.side_view(p.side) == if w.2 > 0 {
                with_entry(p.side, b0.side_view(p.side), incoming)
            } else {
                b0.side_view(p.side)
            }
            &&& msg == (MessageToApi::OrderPlaced {
                payload: OrderPlacedPayload {
                    order_id: order_id,
                    remaining_qty: w.2,
                    filled_qty: (p.quantity - w.2) as u64,
                },
            })
            &&& fs@ == w.0
            &&& l1.view() == settle_all(locked, w.0, p.user_id@, p.side, base, quote, p.price)
        }
    }
}

/// Handles an order request on one market: refuses an id that already
/// rests; escrows the order's full value at its limit, refusing it when the
/// user lacks the funds; matches it;
/// settles each fill at the resting order's price; rests what is left,
/// admitted no earlier than any order already on its side.
/// Returns the response and the fills. `Err` means that a fill found less
/// in escrow than it releases: the ledger's records are corrupt.
pub fn handle_create_order(
    book: &mut Orderbook,
    ledger: &mut Ledger,
    payload: &CreateOrderPayload,
    order_id: String,
    timestamp: i64,
) -> (r: Result<(MessageToApi, Vec<Fill>), LedgerError>)
    requires
        market_wf(old(book), old(ledger)),
    ensures
        market_wf(final(book), final(ledger)),
        final(book).base_asset == old(book).base_asset,
        final(book).quote_asset == old(book).quote_asset,
        create_order_done(*old(book), *old(ledger), *payload, order_id, timestamp, *final(book), *final(ledger), r),
{
    if book.has_order(&order_id) {
        let msg = MessageToApi::OrderCancelled {
            payload: OrderCancelledPayload { message: Some(String::from_str("Duplicate order id")) },
        };
        return Ok((msg, Vec::new()));
    }
    let side = payload.side;
    let latest_here = book.latest_timestamp(side);
    let admitted_at: i64 = if timestamp >= latest_here { timestamp } else { latest_here };
    proof {
        lemma_mul_fits(payload.price, payload.quantity);
    }
    let locked_ok = match side {
        OrderSide::Bid => ledger.try_lock(
            &payload.user_id,
            &book.quote_asset,
            (payload.price as u128) * (payload.quantity as u128),
        ),
        OrderSide::Ask => ledger.try_lock(&payload.user_id, &book.base_asset, payload.quantity as u128),
    };
    if !locked_ok {
        let msg = MessageToApi::OrderCancelled {
            payload: OrderCancelledPayload { message: Some(String::from_str("Insufficient balance for trade")) },
        };
        return Ok((msg, Vec::new()));
    }
    let ghost v1 = ledger.view();
    proof {
        let k = escrow_key(payload.user_id@, side, book.base_asset@, book.quote_asset@);
        let amount = escrow_amount(side, payload.price, payload.quantity);
        let v0 = old(ledger).view();
        assert(v0.contains_key(k));
        assert(amount <= v0[k].0 - v0[k].1);
        assert(v1 == v0.insert(k, (v0[k].0, (v0[k].1 + amount) as u64)));
    }
    let order = Order {
        id: order_id.clone(),
        user_id: payload.user_id.clone(),
        price: payload.price,
        quantity: payload.quantity,
        side,
        timestamp,
    };
    proof {
        lemma_walk(book.side_view(opposite(side)), side, payload.price, payload.quantity);
    }
    let ghost w = match_walk(book.side_view(opposite(side)), side, payload.price, payload.quantity);
    let ghost own = book.side_view(side);
    let (fills, rem) = book.fill_orders(&order);
    let ghost base = book.base_asset@;
    let ghost quote = book.quote_asset@;
    let mut i: usize = 0;
    while i < fills.len()
        invariant
            ledger.wf(),
            book.wf(),
            !book.rests(order_id@),
            !old(book).rests(order_id@),
            fills@ == w.0,
            rem == w.2,
            w == match_walk(old(book).side_view(opposite(side)), side, payload.price, payload.quantity),
            own == old(book).side_view(side),
            admitted_at == entry_time(own, timestamp),
            side == payload.side,
            old(ledger).view().contains_key(escrow_key(payload.user_id@, side, base, quote)),
            escrow_amount(side, payload.price, payload.quantity) <= old(ledger).view()[escrow_key(payload.user_id@, side, base, quote)].0
                - old(ledger).view()[escrow_key(payload.user_id@, side, base, quote)].1,
            v1 == old(ledger).view().insert(
                escrow_key(payload.user_id@, side, base, quote),
                (
                    old(ledger).view()[escrow_key(payload.user_id@, side, base, quote)].0,
                    (old(ledger).view()[escrow_key(payload.user_id@, side, base, quote)].1 + escrow_amount(
                        side,
                        payload.price,
                        payload.quantity,
                    )) as u64,
                ),
            ),
            book.side_view(opposite(side)) == w.1,
            book.side_view(side) == own,
            book.base_asset == old(book).base_asset,
            book.quote_asset == old(book).quote_asset,
            base == book.base_asset@,
            quote == book.quote_asset@,
            i <= fills@.len(),
            forall|j: int| 0 <= j < fills@.len() ==> crosses(side, payload.price, (#[trigger] fills@[j]).price),
            all_settle(v1, fills@.subrange(0, i as int), payload.user_id@, side, base, quote, payload.price),
            ledger.view() == settle_all(v1, fills@.subrange(0, i as int), payload.user_id@, side, base, quote, payload.price),
        decreases fills@.len() - i,
    {
        let ghost pre = fills@.subrange(0, i as int);
        let ghost cur = fills@.subrange(0, i + 1);
        assert(cur.drop_last() =~= pre);
        assert(cur.last() == fills@[i as int]);
        let f = &fills[i];
        assert(crosses(side, payload.price, f.price));
        let res = match side {
            OrderSide::Bid => ledger.settle_fill(
                &payload.user_id,
                &f.user_id,
                &book.base_asset,
                &book.quote_asset,
                f.price,
                f.quantity,
                payload.price,
            ),
            OrderSide::Ask => ledger.settle_fill(
                &f.user_id,
                &payload.user_id,
                &book.base_asset,
                &book.quote_asset,
                f.price,
                f.quantity,
                f.price,
            ),
        };
        if res.is_err() {
            proof {
                if all_settle(v1, fills@, payload.user_id@, side, base, quote, payload.price) {
                    lemma_all_settle_prefix(v1, fills@, i as int + 1, payload.user_id@, side, base, quote, payload.price);
                    assert(all_settle(v1, cur, payload.user_id@, side, base, quote, payload.price));
                    assert(can_settle_one(ledger.view(), fills@[i as int], payload.user_id@, side, base, quote, payload.price));
                    assert(false);
                }
            }
            return Err(LedgerError::LockedShortfall);
        }
        i = i + 1;
    }
    assert(fills@.subrange(0, fills@.len() as int) =~= fills@);
    if rem > 0 {
        let resting = Order { id: order_id.clone(), user_id: payload.user_id.clone(), price: payload.price, quantity: rem, side, timestamp: admitted_at };
        book.insert_order(resting);
    }
    let msg = MessageToApi::OrderPlaced {
        payload: OrderPlacedPayload { order_id, remaining_qty: rem, filled_qty: payload.quantity - rem },
    };
    Ok((msg, fills))
}

/// A sequence of fills that settles settles in each of its prefixes.
proof fn lemma_all_settle_prefix(
    m: Map<AccountKey, (u64, u64)>,
    fs: Seq<Fill>,
    n: int,
    taker: Seq<char>,
    side: OrderSide,
    base: Seq<char>,
    quote: Seq<char>,
    limit: u64,
)
    requires
        0 <= n <= fs.len(),
        all_settle(m, fs, taker, side, base, quote, limit),
    ensures
        all_settle(m, fs.subrange(0, n), taker, side, base, quote, limit),
    decreases fs.len() - n,
{
    if n < fs.len() {
        lemma_all_settle_prefix(m, fs, n + 1, taker, side, base, quote, limit);
        assert(fs.subrange(0, n + 1).drop_last() =~= fs.subrange(0, n));
    } else {
        assert(fs.subrange(0, n) =~= fs);
    }
}

/// The outcome of `handle_cancel_order` on a market in state (`b0`, `l0`),
/// leaving it in (`b1`, `l1`) with result `r`.
pub open spec fn cancel_order_done(
    b0: Orderbook,
    l0: Ledger,
    p: CancelOrderPayload,
    b1: Orderbook,
    l1: Ledger,
    r: Result<MessageToApi, LedgerError>,
) -> bool {
    &&& b1.base_asset == b0.base_asset && b1.quote_asset == b0.quote_asset
    &&& (b1.bids@, b1.asks@) == after_cancel(b0.bids@, b0.asks@, p.order_id@)
    &&& match cancel_target(b0.bids@, b0.asks@, p.order_id@) {
        None => {
            &&& r matches Ok(MessageToApi::OrderCancelled { payload: c })
            &&& c.message matches Some(m) && m@ == not_found_text()
            &&& l1.view() == l0.view()
        },
        Some(o) => {
            let k = escrow_key(o.user_id@, o.side, b0.base_asset@, b0.quote_asset@);
            let amount = escrow_amount(o.side, o.price, o.quantity);
            let v0 = l0.view();
            &&& (r is Ok) == (v0.contains_key(k) && amount <= v0[k].1)
            &&& r is Ok ==> {
                &&& r matches Ok(MessageToApi::OrderCancelled { payload: c })
                &&& c.message matches Some(m) && m@ == cancelled_text()
                &&& l1.view() == v0.insert(k, (v0[k].0, (v0[k].1 - amount) as u64))
            }
            &&& r is Err ==> l1.view() == v0
        },
    }
}

/// Handles a cancellation on one market: removes the order (see
/// `cancel_target`) and releases exactly what it had in escrow. A missing
/// order is answered with a not-found message and changes nothing. `Err`
/// means that the escrow held less than the order's share: the ledger's
/// records are corrupt.
pub fn handle_cancel_order(book: &mut Orderbook, ledger: &mut Ledger, payload: &CancelOrderPayload) -> (r: Result<
    MessageToApi,
    LedgerError,
>)
    requires
        market_wf(old(book), old(ledger)),
    ensures
        market_wf(final(book), final(ledger)),
        final(book).base_asset == old(book).base_asset,
        final(book).quote_asset == old(book).quote_asset,
        cancel_order_done(*old(book), *old(ledger), *payload, *final(book), *final(ledger), r),
{
    match book.cancel(&payload.order_id) {
        None => Ok(
            MessageToApi::OrderCancelled { payload: OrderCancelledPayload { message: Some(String::from_str("Order not found")) } },
        ),
        Some(o) => {
            proof {
                lemma_mul_fits(o.price, o.quantity);
            }
            let res = match o.side {
                OrderSide::Bid => ledger.release_lock(&o.user_id, &book.quote_asset, (o.price as u128) * (o.quantity as u128)),
                OrderSide::Ask => ledger.release_lock(&o.user_id, &book.base_asset, o.quantity as u128),
            };
            match res {
                Ok(()) => Ok(
                    MessageToApi::OrderCancelled {
                        payload: OrderCancelledPayload { message: Some(String::from_str("ORDER CANCELLED")) },
                    },
                ),
                Err(e) => Err(e),
            }
        },
    }
}

/// Answers a depth request: the book's levels, read only.
pub fn handle_get_depth(book: &Orderbook) -> (r: MessageToApi)
    ensures
        r matches MessageToApi::Depth { payload: d } && level_view(d.bids@) == levels(book.bids@) && level_view(d.asks@)
            == levels(book.asks@),
{
    MessageToApi::Depth { payload: book.get_depth() }
}

/// Answers an open-orders request: the user's resting bids, then asks.
pub fn handle_get_open_orders(book: &Orderbook, payload: &GetOpenOrdersPayload) -> (r: MessageToApi)
    ensures
        r matches MessageToApi::OpenOrders { payload: p } && p.user_id == payload.user_id && p.market == payload.market
            && p.orders@ == owned_by(book.bids@, payload.user_id@) + owned_by(book.asks@, payload.user_id@),
{
    let orders = book.open_orders(&payload.user_id);
    MessageToApi::OpenOrders {
        payload: OpenOrders { user_id: payload.user_id.clone(), market: payload.market.clone(), orders },
    }
}

/// Answers a quote request: the dry-run walk along the side opposite `side`.
pub fn handle_get_quote(book: &Orderbook, quantity: u64, side: OrderSide) -> (r: MessageToApi)
    ensures
        r matches MessageToApi::Quote { payload: q } && q.quantity == quantity && q.filled_qty == quote_walk(
            book.side_view(opposite(side)),
            quantity as int,
        ).0 && q.total_cost == quote_walk(book.side_view(opposite(side)), quantity as int).1,
{
    MessageToApi::Quote { payload: book.get_quote_detail(quantity, side) }
}

/// A buy at limit `limit` for `qty` against a single resting ask at a price
/// no higher, holding at least `qty`, fills in full at the ask's price. Once
/// settled, the buyer has paid `ask.price * qty` and has nothing more locked
/// than before the order: the rest of what was escrowed at the limit,
/// `(limit - ask.price) * qty`, is available again.
pub proof fn lemma_fill_at_maker_price(
    ask: Order,
    buyer: Seq<char>,
    base: Seq<char>,
    quote: Seq<char>,
    limit: u64,
    qty: u64,
    m: Map<AccountKey, (u64, u64)>,
)
    requires
        ask.side == OrderSide::Ask,
        ask.price <= limit,
        0 < qty <= ask.quantity,
        base != quote,
        buyer != ask.user_id@,
        m.contains_key((buyer, quote)),
        limit * qty <= m[(buyer, quote)].0 - m[(buyer, quote)].1,
        m.contains_key((ask.user_id@, base)),
        m[(ask.user_id@, base)].1 >= qty,
        m[(ask.user_id@, base)].1 <= m[(ask.user_id@, base)].0,
    ensures
        ({
            let w = match_walk(seq![ask], OrderSide::Bid, limit, qty);
            let k = (buyer, quote);
            let locked = m.insert(k, (m[k].0, (m[k].1 + limit * qty) as u64));
            let after = settle_all(locked, w.0, buyer, OrderSide::Bid, base, quote, limit);
            &&& w.0 == seq![fill_of(ask, qty)]
            &&& w.2 == 0
            &&& all_settle(locked, w.0, buyer, OrderSide::Bid, base, quote, limit)
            &&& after[k] == ((m[k].0 - ask.price * qty) as u64, m[k].1)
            &&& after[k].0 - after[k].1 == m[k].0 - m[k].1 - ask.price * qty
        }),
{
    let s = seq![ask];
    let w = match_walk(s, OrderSide::Bid, limit, qty);
    let k = (buyer, quote);
    let locked = m.insert(k, (m[k].0, (m[k].1 + limit * qty) as u64));
    if ask.quantity <= qty {
        assert(s.drop_first() =~= Seq::<Order>::empty());
        let rest = match_walk(s.drop_first(), OrderSide::Bid, limit, 0);
        assert(rest.0 =~= Seq::<Fill>::empty());
        assert(w.0 =~= seq![fill_of(ask, qty)]);
    } else {
        assert(w.0 =~= seq![fill_of(ask, qty)]);
    }
    let f = fill_of(ask, qty);
    assert(w.0.drop_last() =~= Seq::<Fill>::empty());
    assert(w.0.last() == f);
    assert(ask.price * qty <= limit * qty) by (nonlinear_arith)
        requires ask.price <= limit;
    assert(limit * qty <= 0xFFFF_FFFF_FFFF_FFFFu64) by (nonlinear_arith)
        requires limit * qty <= m[(buyer, quote)].0 - m[(buyer, quote)].1, m[(buyer, quote)].0 <= 0xFFFF_FFFF_FFFF_FFFFu64, m[(buyer, quote)].1 >= 0;
    assert(settle_all(locked, w.0.drop_last(), buyer, OrderSide::Bid, base, quote, limit) == locked);
    assert(all_settle(locked, w.0.drop_last(), buyer, OrderSide::Bid, base, quote, limit));
}

} // verus!
