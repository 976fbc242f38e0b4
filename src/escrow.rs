use vstd::prelude::*;
use crate::engine::{as_cancel_result, as_order_result, market_index, process_outcome, Engine, EngineError, MarketBook};
use crate::ledger::{AccountKey, Ledger, LedgerError};
use crate::orderbook::{
    cancel_target, crosses, entry_point, entry_time, fill_of, lemma_entry_point_bounds, fills_total, lemma_walk, match_walk, not_behind, opposite,
    position_of, side_wf, Orderbook,
};
use crate::types::{CancelOrderPayload, CreateOrderPayload, Fill, MessageFromApi, MessageToApi, Order, OrderSide};
use crate::worker::{
    all_settle, can_settle_one, cancel_order_done, create_order_done, escrow_amount, escrow_key, market_wf, settle_all,
    settle_one,
};

verus! {

/// What account `k` has locked in ledger map `m`; zero without the account.
pub open spec fn locked_in(m: Map<AccountKey, (u64, u64)>, k: AccountKey) -> int {
    if m.contains_key(k) {
        m[k].1 as int
    } else {
        0
    }
}

/// What the resting order `o`, in a market trading `base` against `quote`,
/// holds in escrow in account `k`.
pub open spec fn order_escrow(o: Order, base: Seq<char>, quote: Seq<char>, k: AccountKey) -> int {
    if escrow_key(o.user_id@, o.side, base, quote) == k {
        escrow_amount(o.side, o.price, o.quantity)
    } else {
        0
    }
}

/// What the orders `s` hold in escrow in account `k`.
pub open spec fn escrow_sum(s: Seq<Order>, base: Seq<char>, quote: Seq<char>, k: AccountKey) -> int
    decreases s.len(),
{
    if s.len() == 0 {
        0
    } else {
        order_escrow(s[0], base, quote, k) + escrow_sum(s.drop_first(), base, quote, k)
    }
}

/// What the resting orders of `b` hold in escrow in account `k`.
pub open spec fn book_escrow(b: Orderbook, k: AccountKey) -> int {
    escrow_sum(b.bids@, b.base_asset@, b.quote_asset@, k) + escrow_sum(b.asks@, b.base_asset@, b.quote_asset@, k)
}

/// What the resting orders of all markets `ms` hold in escrow in account `k`.
pub open spec fn markets_escrow(ms: Seq<MarketBook>, k: AccountKey) -> int
    decreases ms.len(),
{
    if ms.len() == 0 {
        0
    } else {
        markets_escrow(ms.drop_last(), k) + book_escrow(ms.last().book, k)
    }
}

/// Escrow conservation: every account has locked exactly what the resting
/// orders of all markets hold in escrow in it.
pub open spec fn escrow_conserved(e: Engine) -> bool {
    forall|k: AccountKey| #[trigger] locked_in(e.ledger.view(), k) == markets_escrow(e.markets@, k)
}

/// What one fill releases from escrow in account `k`: the resting order's
/// share of the fill, and the incoming order's share at its limit `limit`.
pub open spec fn fill_release(
    f: Fill,
    taker: Seq<char>,
    side: OrderSide,
    base: Seq<char>,
    quote: Seq<char>,
    limit: u64,
    k: AccountKey,
) -> int {
    let maker = match side {
        OrderSide::Bid => if k == (f.user_id@, base) { f.quantity as int } else { 0 },
        OrderSide::Ask => if k == (f.user_id@, quote) { f.price * f.quantity } else { 0 },
    };
    let own = match side {
        OrderSide::Bid => if k == (taker, quote) { limit * f.quantity } else { 0 },
        OrderSide::Ask => if k == (taker, base) { f.quantity as int } else { 0 },
    };
    maker + own
}

/// The resting order's share alone.
pub open spec fn maker_release(f: Fill, side: OrderSide, base: Seq<char>, quote: Seq<char>, k: AccountKey) -> int {
    match side {
        OrderSide::Bid => if k == (f.user_id@, base) { f.quantity as int } else { 0 },
        OrderSide::Ask => if k == (f.user_id@, quote) { f.price * f.quantity } else { 0 },
    }
}

pub open spec fn maker_release_sum(fs: Seq<Fill>, side: OrderSide, base: Seq<char>, quote: Seq<char>, k: AccountKey) -> int
    decreases fs.len(),
{
    if fs.len() == 0 {
        0
    } else {
        maker_release(fs[0], side, base, quote, k) + maker_release_sum(fs.drop_first(), side, base, quote, k)
    }
}

pub open spec fn release_sum(
    fs: Seq<Fill>,
    taker: Seq<char>,
    side: OrderSide,
    base: Seq<char>,
    quote: Seq<char>,
    limit: u64,
    k: AccountKey,
) -> int
    decreases fs.len(),
{
    if fs.len() == 0 {
        0
    } else {
        release_sum(fs.drop_last(), taker, side, base, quote, limit, k) + fill_release(fs.last(), taker, side, base, quote, limit, k)
    }
}

proof fn lemma_escrow_insert(s: Seq<Order>, i: int, o: Order, base: Seq<char>, quote: Seq<char>, k: AccountKey)
    requires
        0 <= i <= s.len(),
    ensures
        escrow_sum(s.insert(i, o), base, quote, k) == escrow_sum(s, base, quote, k) + order_escrow(o, base, quote, k),
    decreases i,
{
    let t = s.insert(i, o);
    if i == 0 {
        assert(t.drop_first() =~= s);
    } else {
        assert(t.drop_first() =~= s.drop_first().insert(i - 1, o));
        lemma_escrow_insert(s.drop_first(), i - 1, o, base, quote, k);
        assert(t[0] == s[0]);
    }
}

proof fn lemma_escrow_remove(s: Seq<Order>, i: int, base: Seq<char>, quote: Seq<char>, k: AccountKey)
    requires
        0 <= i < s.len(),
    ensures
        escrow_sum(s.remove(i), base, quote, k) == escrow_sum(s, base, quote, k) - order_escrow(s[i], base, quote, k),
    decreases i,
{
    let t = s.remove(i);
    if i == 0 {
        assert(t =~= s.drop_first());
    } else {
        assert(t.drop_first() =~= s.drop_first().remove(i - 1));
        lemma_escrow_remove(s.drop_first(), i - 1, base, quote, k);
        assert(t[0] == s[0]);
    }
}

/// The walk lowers the escrow of the side it walks by the resting orders'
/// shares of its fills.
proof fn lemma_walk_escrow(s: Seq<Order>, side: OrderSide, limit: u64, qty: u64, base: Seq<char>, quote: Seq<char>, k: AccountKey)
    requires
        side_wf(opposite(side), s),
    ensures
        escrow_sum(match_walk(s, side, limit, qty).1, base, quote, k) == escrow_sum(s, base, quote, k)
            - maker_release_sum(match_walk(s, side, limit, qty).0, side, base, quote, k),
    decreases s.len(),
{
    if qty == 0 || s.len() == 0 || !crosses(side, limit, s[0].price) {
        assert(maker_release_sum(Seq::<Fill>::empty(), side, base, quote, k) == 0);
    } else if s[0].quantity <= qty {
        let t = s.drop_first();
        assert(s[0].side == opposite(side));
        assert forall|i: int, j: int| 0 <= i < j < t.len() implies #[trigger] not_behind(opposite(side), t[i], t[j]) by {
            assert(not_behind(opposite(side), s[i + 1], s[j + 1]));
        }
        assert forall|i: int| 0 <= i < t.len() implies (#[trigger] t[i]).side == opposite(side) && t[i].quantity > 0 by {
            assert(s[i + 1] == t[i]);
        }
        lemma_walk_escrow(t, side, limit, (qty - s[0].quantity) as u64, base, quote, k);
        let rest = match_walk(t, side, limit, (qty - s[0].quantity) as u64);
        let f = seq![fill_of(s[0], s[0].quantity)] + rest.0;
        assert(f.drop_first() =~= rest.0);
        assert(f[0] == fill_of(s[0], s[0].quantity));
    } else {
        let o2 = Order { quantity: (s[0].quantity - qty) as u64, ..s[0] };
        let u = s.update(0, o2);
        assert(s[0].side == opposite(side));
        assert(u.drop_first() =~= s.drop_first());
        let f = seq![fill_of(s[0], qty)];
        assert(f.drop_first() =~= Seq::<Fill>::empty());
        assert(f[0] == fill_of(s[0], qty));
        assert(maker_release_sum(Seq::<Fill>::empty(), side, base, quote, k) == 0);
        assert(s[0].price * s[0].quantity - s[0].price * (s[0].quantity - qty) == s[0].price * qty) by (nonlinear_arith);
    }
}

/// The incoming order's share of the fills' release in account `k`, per
/// unit traded.
pub open spec fn own_rate(taker: Seq<char>, side: OrderSide, base: Seq<char>, quote: Seq<char>, limit: u64, k: AccountKey) -> int {
    match side {
        OrderSide::Bid => if k == (taker, quote) { limit as int } else { 0 },
        OrderSide::Ask => if k == (taker, base) { 1 } else { 0 },
    }
}

proof fn lemma_settle_one_locked(
    m: Map<AccountKey, (u64, u64)>,
    f: Fill,
    taker: Seq<char>,
    side: OrderSide,
    base: Seq<char>,
    quote: Seq<char>,
    limit: u64,
    k: AccountKey,
)
    requires
        can_settle_one(m, f, taker, side, base, quote, limit),
    ensures
        locked_in(settle_one(m, f, taker, side, base, quote, limit), k) == locked_in(m, k) - fill_release(
            f,
            taker,
            side,
            base,
            quote,
            limit,
            k,
        ),
{
}

proof fn lemma_settle_all_locked(
    m: Map<AccountKey, (u64, u64)>,
    fs: Seq<Fill>,
    taker: Seq<char>,
    side: OrderSide,
    base: Seq<char>,
    quote: Seq<char>,
    limit: u64,
    k: AccountKey,
)
    requires
        all_settle(m, fs, taker, side, base, quote, limit),
    ensures
        locked_in(settle_all(m, fs, taker, side, base, quote, limit), k) == locked_in(m, k) - release_sum(
            fs,
            taker,
            side,
            base,
            quote,
            limit,
            k,
        ),
    decreases fs.len(),
{
    if fs.len() > 0 {
        lemma_settle_all_locked(m, fs.drop_last(), taker, side, base, quote, limit, k);
        lemma_settle_one_locked(
            settle_all(m, fs.drop_last(), taker, side, base, quote, limit),
            fs.last(),
            taker,
            side,
            base,
            quote,
            limit,
            k,
        );
    }
}

proof fn lemma_maker_sum_last(fs: Seq<Fill>, side: OrderSide, base: Seq<char>, quote: Seq<char>, k: AccountKey)
    requires
        fs.len() > 0,
    ensures
        maker_release_sum(fs, side, base, quote, k) == maker_release_sum(fs.drop_last(), side, base, quote, k)
            + maker_release(fs.last(), side, base, quote, k),
        fills_total(fs) == fills_total(fs.drop_last()) + fs.last().quantity,
    decreases fs.len(),
{
    if fs.len() > 1 {
        lemma_maker_sum_last(fs.drop_first(), side, base, quote, k);
        assert(fs.drop_first().drop_last() =~= fs.drop_last().drop_first());
    } else {
        assert(fs.drop_first() =~= Seq::<Fill>::empty());
        assert(fs.drop_last() =~= Seq::<Fill>::empty());
    }
}

proof fn lemma_release_split(
    fs: Seq<Fill>,
    taker: Seq<char>,
    side: OrderSide,
    base: Seq<char>,
    quote: Seq<char>,
    limit: u64,
    k: AccountKey,
)
    ensures
        release_sum(fs, taker, side, base, quote, limit, k) == maker_release_sum(fs, side, base, quote, k) + own_rate(
            taker,
            side,
            base,
            quote,
            limit,
            k,
        ) * fills_total(fs),
    decreases fs.len(),
{
    let r = own_rate(taker, side, base, quote, limit, k);
    if fs.len() > 0 {
        lemma_release_split(fs.drop_last(), taker, side, base, quote, limit, k);
        lemma_maker_sum_last(fs, side, base, quote, k);
        assert(r * fills_total(fs) == r * fills_total(fs.drop_last()) + r * fs.last().quantity) by (nonlinear_arith)
            requires fills_total(fs) == fills_total(fs.drop_last()) + fs.last().quantity;
    }
}

/// The escrow of a book read through `side_view`.
proof fn lemma_book_escrow_sides(b: Orderbook, side: OrderSide, k: AccountKey)
    ensures
        book_escrow(b, k) == escrow_sum(b.side_view(side), b.base_asset@, b.quote_asset@, k) + escrow_sum(
            b.side_view(opposite(side)),
            b.base_asset@,
            b.quote_asset@,
            k,
        ),
{
}

/// Placing an order moves between locked and escrowed amounts in step: in
/// every account, what is locked changes by exactly what the resting orders
/// hold in escrow.
pub proof fn lemma_create_order_escrow(
    b0: Orderbook,
    l0: Ledger,
    p: CreateOrderPayload,
    order_id: String,
    timestamp: i64,
    b1: Orderbook,
    l1: Ledger,
    r: Result<(MessageToApi, Vec<Fill>), LedgerError>,
    k: AccountKey,
)
    requires
        market_wf(&b0, &l0),
        b1.base_asset == b0.base_asset,
        b1.quote_asset == b0.quote_asset,
        create_order_done(b0, l0, p, order_id, timestamp, b1, l1, r),
        r is Ok,
    ensures
        locked_in(l1.view(), k) - locked_in(l0.view(), k) == book_escrow(b1, k) - book_escrow(b0, k),
{
    let base = b0.base_asset@;
    let quote = b0.quote_asset@;
    let tk = escrow_key(p.user_id@, p.side, base, quote);
    let amount = escrow_amount(p.side, p.price, p.quantity);
    let v0 = l0.view();
    let can_lock = v0.contains_key(tk) && amount <= v0[tk].0 - v0[tk].1;
    if !b0.rests(order_id@) && can_lock {
        let locked = v0.insert(tk, (v0[tk].0, (v0[tk].1 + amount) as u64));
        let w = match_walk(b0.side_view(opposite(p.side)), p.side, p.price, p.quantity);
        lemma_walk(b0.side_view(opposite(p.side)), p.side, p.price, p.quantity);
        lemma_walk_escrow(b0.side_view(opposite(p.side)), p.side, p.price, p.quantity, base, quote, k);
        lemma_settle_all_locked(locked, w.0, p.user_id@, p.side, base, quote, p.price, k);
        lemma_release_split(w.0, p.user_id@, p.side, base, quote, p.price, k);
        lemma_book_escrow_sides(b0, p.side, k);
        lemma_book_escrow_sides(b1, p.side, k);
        assert(amount <= u64::MAX) by {
            assert(v0[tk].0 <= u64::MAX);
        }
        assert(locked_in(locked, k) == locked_in(v0, k) + if k == tk { amount } else { 0 });
        let incoming = Order {
            id: order_id,
            user_id: p.user_id,
            price: p.price,
            quantity: w.2,
            side: p.side,
            timestamp: entry_time(b0.side_view(p.side), timestamp),
        };
        if w.2 > 0 {
            lemma_entry_point_bounds(p.side, b0.side_view(p.side), incoming);
            lemma_escrow_insert(
                b0.side_view(p.side),
                entry_point(p.side, b0.side_view(p.side), incoming),
                incoming,
                base,
                quote,
                k,
            );
        }
        let rem = w.2 as int;
        let q = p.quantity as int;
        if p.side == OrderSide::Bid {
            assert((p.price as int) * q - (p.price as int) * (q - rem) == (p.price as int) * rem) by (nonlinear_arith);
        }
    }
}

/// Cancelling moves locked and escrowed amounts in step: in every account,
/// what is locked changes by exactly what the resting orders hold in
/// escrow.
pub proof fn lemma_cancel_order_escrow(
    b0: Orderbook,
    l0: Ledger,
    p: CancelOrderPayload,
    b1: Orderbook,
    l1: Ledger,
    r: Result<MessageToApi, LedgerError>,
    k: AccountKey,
)
    requires
        market_wf(&b0, &l0),
        b1.base_asset == b0.base_asset,
        b1.quote_asset == b0.quote_asset,
        cancel_order_done(b0, l0, p, b1, l1, r),
        r is Ok,
    ensures
        locked_in(l1.view(), k) - locked_in(l0.view(), k) == book_escrow(b1, k) - book_escrow(b0, k),
{
    let base = b0.base_asset@;
    let quote = b0.quote_asset@;
    match position_of(b0.bids@, p.order_id@) {
        Some(i) => {
            assert(0 <= i < b0.bids@.len() && b0.bids@[i].id@ == p.order_id@);
            lemma_escrow_remove(b0.bids@, i, base, quote, k);
        },
        None => match position_of(b0.asks@, p.order_id@) {
            Some(i) => {
                assert(0 <= i < b0.asks@.len() && b0.asks@[i].id@ == p.order_id@);
                lemma_escrow_remove(b0.asks@, i, base, quote, k);
            },
            None => {},
        },
    }
}

proof fn lemma_markets_escrow_update(m0: Seq<MarketBook>, m1: Seq<MarketBook>, i: int, k: AccountKey)
    requires
        m0.len() == m1.len(),
        0 <= i < m0.len(),
        forall|j: int| 0 <= j < m0.len() && j != i ==> #[trigger] m1[j] == m0[j],
    ensures
        markets_escrow(m1, k) == markets_escrow(m0, k) - book_escrow(m0[i].book, k) + book_escrow(m1[i].book, k),
    decreases m0.len(),
{
    if i == m0.len() - 1 {
        assert(m1.drop_last() =~= m0.drop_last());
    } else {
        assert forall|j: int| 0 <= j < m0.drop_last().len() && j != i implies #[trigger] m1.drop_last()[j]
            == m0.drop_last()[j] by {
            assert(m1[j] == m0[j]);
        }
        lemma_markets_escrow_update(m0.drop_last(), m1.drop_last(), i, k);
        assert(m1.last() == m0.last());
    }
}

/// Escrow conservation is kept by every request that the engine serves
/// without finding its ledger corrupt: after it, every account has locked
/// exactly what the resting orders of all markets hold in escrow in it.
pub proof fn lemma_escrow_conservation(
    e0: Engine,
    message: MessageFromApi,
    order_id: String,
    timestamp: i64,
    e1: Engine,
    r: Result<(MessageToApi, Vec<Fill>), EngineError>,
)
    requires
        e0.wf(),
        escrow_conserved(e0),
        process_outcome(e0, message, order_id, timestamp, e1, r),
        !(r matches Err(EngineError::Ledger(_))),
    ensures
        escrow_conserved(e1),
{
    match message {
        MessageFromApi::CreateOrder { data } => {
            if let Some(i) = market_index(e0.markets@, data.market@) {
                assert(0 <= i < e0.markets@.len() && e0.markets@[i].name@ == data.market@);
                assert forall|k: AccountKey| #[trigger] locked_in(e1.ledger.view(), k) == markets_escrow(e1.markets@, k) by {
                    if !e0.ledger.has_user(data.user_id@) {
                        assert(e1 == e0);
                    } else {
                        lemma_markets_escrow_update(e0.markets@, e1.markets@, i, k);
                        lemma_create_order_escrow(
                            e0.markets@[i].book,
                            e0.ledger,
                            data,
                            order_id,
                            timestamp,
                            e1.markets@[i].book,
                            e1.ledger,
                            as_order_result(r),
                            k,
                        );
                    }
                }
            }
        },
        MessageFromApi::CancelOrder { data } => {
            if let Some(i) = market_index(e0.markets@, data.market@) {
                assert(0 <= i < e0.markets@.len() && e0.markets@[i].name@ == data.market@);
                assert forall|k: AccountKey| #[trigger] locked_in(e1.ledger.view(), k) == markets_escrow(e1.markets@, k) by {
                    lemma_markets_escrow_update(e0.markets@, e1.markets@, i, k);
                    lemma_cancel_order_escrow(
                        e0.markets@[i].book,
                        e0.ledger,
                        data,
                        e1.markets@[i].book,
                        e1.ledger,
                        as_cancel_result(r),
                        k,
                    );
                }
            }
        },
        MessageFromApi::CreateMarket { data } => {
            if r is Ok {
                let n = e0.markets@.len() as int;
                assert(e1.markets@.drop_last() =~= e1.markets@.subrange(0, n));
                assert forall|k: AccountKey| #[trigger] locked_in(e1.ledger.view(), k) == markets_escrow(e1.markets@, k) by {
                    let b = e1.markets@.last().book;
                    assert(escrow_sum(b.bids@, b.base_asset@, b.quote_asset@, k) == 0);
                    assert(escrow_sum(b.asks@, b.base_asset@, b.quote_asset@, k) == 0);
                }
            }
        },
        _ => {},
    }
}

/// Every order of `s` escrows in an account that the ledger map `m` holds.
pub open spec fn orders_backed(m: Map<AccountKey, (u64, u64)>, s: Seq<Order>, base: Seq<char>, quote: Seq<char>) -> bool {
    forall|i: int| 0 <= i < s.len() ==> m.contains_key(#[trigger] escrow_key(s[i].user_id@, s[i].side, base, quote))
}

/// The engine's escrow invariant: conservation, and every resting order's
/// escrow account exists.
pub open spec fn escrow_backed(e: Engine) -> bool {
    escrow_conserved(e) && markets_backed(e)
}

/// Every resting order of every market escrows in an account that exists.
pub open spec fn markets_backed(e: Engine) -> bool {
    forall|i: int|
        0 <= i < e.markets@.len() ==> {
            let b = (#[trigger] e.markets@[i]).book;
            &&& orders_backed(e.ledger.view(), b.bids@, b.base_asset@, b.quote_asset@)
            &&& orders_backed(e.ledger.view(), b.asks@, b.base_asset@, b.quote_asset@)
        }
}

proof fn lemma_escrow_nonneg(s: Seq<Order>, base: Seq<char>, quote: Seq<char>, k: AccountKey)
    ensures
        escrow_sum(s, base, quote, k) >= 0,
    decreases s.len(),
{
    if s.len() > 0 {
        lemma_escrow_nonneg(s.drop_first(), base, quote, k);
    }
}

proof fn lemma_markets_nonneg(ms: Seq<MarketBook>, k: AccountKey)
    ensures
        markets_escrow(ms, k) >= 0,
    decreases ms.len(),
{
    if ms.len() > 0 {
        let b = ms.last().book;
        lemma_escrow_nonneg(b.bids@, b.base_asset@, b.quote_asset@, k);
        lemma_escrow_nonneg(b.asks@, b.base_asset@, b.quote_asset@, k);
        lemma_markets_nonneg(ms.drop_last(), k);
    }
}

proof fn lemma_markets_escrow_ge(ms: Seq<MarketBook>, i: int, k: AccountKey)
    requires
        0 <= i < ms.len(),
    ensures
        markets_escrow(ms, k) >= book_escrow(ms[i].book, k),
    decreases ms.len(),
{
    let b = ms.last().book;
    lemma_escrow_nonneg(b.bids@, b.base_asset@, b.quote_asset@, k);
    lemma_escrow_nonneg(b.asks@, b.base_asset@, b.quote_asset@, k);
    lemma_markets_nonneg(ms.drop_last(), k);
    if i < ms.len() - 1 {
        lemma_markets_escrow_ge(ms.drop_last(), i, k);
        assert(ms.drop_last()[i] == ms[i]);
    }
}

proof fn lemma_settle_all_keeps_accounts(
    m: Map<AccountKey, (u64, u64)>,
    fs: Seq<Fill>,
    taker: Seq<char>,
    side: OrderSide,
    base: Seq<char>,
    quote: Seq<char>,
    limit: u64,
)
    ensures
        forall|k: AccountKey| m.contains_key(k) ==> #[trigger] settle_all(m, fs, taker, side, base, quote, limit).contains_key(k),
    decreases fs.len(),
{
    if fs.len() > 0 {
        lemma_settle_all_keeps_accounts(m, fs.drop_last(), taker, side, base, quote, limit);
        assert forall|k: AccountKey| m.contains_key(k) implies #[trigger] settle_all(m, fs, taker, side, base, quote, limit).contains_key(k) by {
            let prev = settle_all(m, fs.drop_last(), taker, side, base, quote, limit);
            assert(prev.contains_key(k));
        }
    }
}

proof fn lemma_release_prefix_le(
    fs: Seq<Fill>,
    n: int,
    taker: Seq<char>,
    side: OrderSide,
    base: Seq<char>,
    quote: Seq<char>,
    limit: u64,
    k: AccountKey,
)
    requires
        0 <= n <= fs.len(),
    ensures
        release_sum(fs.subrange(0, n), taker, side, base, quote, limit, k) <= release_sum(fs, taker, side, base, quote, limit, k),
    decreases fs.len() - n,
{
    if n < fs.len() {
        lemma_release_prefix_le(fs, n + 1, taker, side, base, quote, limit, k);
        assert(fs.subrange(0, n + 1).drop_last() =~= fs.subrange(0, n));
        let f = fs[n];
        assert(fs.subrange(0, n + 1).last() == f);
        assert(fill_release(f, taker, side, base, quote, limit, k) >= 0) by (nonlinear_arith);
    } else {
        assert(fs.subrange(0, n) =~= fs);
    }
}

/// What is left of a side after the walk holds only orders of that side,
/// by owners and sides that stood there before, and the walk's fills trade
/// positive quantities at the prices of orders that stood there, and cross.
proof fn lemma_walk_members(s: Seq<Order>, side: OrderSide, limit: u64, qty: u64)
    requires
        side_wf(opposite(side), s),
    ensures
        forall|i: int| 0 <= i < match_walk(s, side, limit, qty).1.len() ==> exists|j: int| 0 <= j < s.len() && (#[trigger] match_walk(s, side, limit, qty).1[i]).user_id == s[j].user_id && match_walk(s, side, limit, qty).1[i].side == s[j].side,
        forall|i: int| 0 <= i < match_walk(s, side, limit, qty).0.len() ==> exists|j: int| 0 <= j < s.len() && (#[trigger] match_walk(s, side, limit, qty).0[i]).user_id == s[j].user_id && s[j].side == opposite(side),
    decreases s.len(),
{
    if qty == 0 || s.len() == 0 || !crosses(side, limit, s[0].price) {
    } else if s[0].quantity <= qty {
        let t = s.drop_first();
        assert forall|i: int, j: int| 0 <= i < j < t.len() implies #[trigger] not_behind(opposite(side), t[i], t[j]) by {
            assert(not_behind(opposite(side), s[i + 1], s[j + 1]));
        }
        assert forall|i: int| 0 <= i < t.len() implies (#[trigger] t[i]).side == opposite(side) && t[i].quantity > 0 by {
            assert(s[i + 1] == t[i]);
        }
        lemma_walk_members(t, side, limit, (qty - s[0].quantity) as u64);
        let rest = match_walk(t, side, limit, (qty - s[0].quantity) as u64);
        let w = match_walk(s, side, limit, qty);
        assert forall|i: int| 0 <= i < w.1.len() implies exists|j: int| 0 <= j < s.len() && (#[trigger] w.1[i]).user_id == s[j].user_id && w.1[i].side == s[j].side by {
            let j = choose|j: int| 0 <= j < t.len() && rest.1[i].user_id == t[j].user_id && rest.1[i].side == t[j].side;
            assert(s[j + 1] == t[j]);
        }
        assert forall|i: int| 0 <= i < w.0.len() implies exists|j: int| 0 <= j < s.len() && (#[trigger] w.0[i]).user_id == s[j].user_id && s[j].side == opposite(side) by {
            if i == 0 {
                assert(w.0[0] == fill_of(s[0], s[0].quantity));
            } else {
                assert(w.0[i] == rest.0[i - 1]);
                let j = choose|j: int| 0 <= j < t.len() && rest.0[i - 1].user_id == t[j].user_id && t[j].side == opposite(side);
                assert(s[j + 1] == t[j]);
            }
        }
    } else {
        let w = match_walk(s, side, limit, qty);
        assert forall|i: int| 0 <= i < w.1.len() implies exists|j: int| 0 <= j < s.len() && (#[trigger] w.1[i]).user_id == s[j].user_id && w.1[i].side == s[j].side by {
            assert(w.1[i].user_id == s[i].user_id && w.1[i].side == s[i].side);
        }
        assert forall|i: int| 0 <= i < w.0.len() implies exists|j: int| 0 <= j < s.len() && (#[trigger] w.0[i]).user_id == s[j].user_id && s[j].side == opposite(side) by {
            assert(w.0[i] == fill_of(s[0], qty));
        }
    }
}

proof fn lemma_prefix_settles(b0: Orderbook, l0: Ledger, p: CreateOrderPayload, n: int)
    requires
        market_wf(&b0, &l0),
        orders_backed(l0.view(), b0.bids@, b0.base_asset@, b0.quote_asset@),
        orders_backed(l0.view(), b0.asks@, b0.base_asset@, b0.quote_asset@),
        forall|k: AccountKey| #[trigger] locked_in(l0.view(), k) >= book_escrow(b0, k),
        l0.view().contains_key(escrow_key(p.user_id@, p.side, b0.base_asset@, b0.quote_asset@)),
        escrow_amount(p.side, p.price, p.quantity) <= l0.view()[escrow_key(p.user_id@, p.side, b0.base_asset@, b0.quote_asset@)].0
            - l0.view()[escrow_key(p.user_id@, p.side, b0.base_asset@, b0.quote_asset@)].1,
        0 <= n <= match_walk(b0.side_view(opposite(p.side)), p.side, p.price, p.quantity).0.len(),
    ensures
        ({
            let base = b0.base_asset@;
            let quote = b0.quote_asset@;
            let tk = escrow_key(p.user_id@, p.side, base, quote);
            let amount = escrow_amount(p.side, p.price, p.quantity);
            let v0 = l0.view();
            let locked = v0.insert(tk, (v0[tk].0, (v0[tk].1 + amount) as u64));
            let w = match_walk(b0.side_view(opposite(p.side)), p.side, p.price, p.quantity);
            all_settle(locked, w.0.subrange(0, n), p.user_id@, p.side, base, quote, p.price)
        }),
    decreases n,
{
    let base = b0.base_asset@;
    let quote = b0.quote_asset@;
    let tk = escrow_key(p.user_id@, p.side, base, quote);
    let amount = escrow_amount(p.side, p.price, p.quantity);
    let v0 = l0.view();
    let locked = v0.insert(tk, (v0[tk].0, (v0[tk].1 + amount) as u64));
    let opp = b0.side_view(opposite(p.side));
    let w = match_walk(opp, p.side, p.price, p.quantity);
    let fs = w.0;
    if n == 0 {
        assert(fs.subrange(0, 0) =~= Seq::<Fill>::empty());
    } else {
        lemma_prefix_settles(b0, l0, p, n - 1);
        lemma_walk(opp, p.side, p.price, p.quantity);
        lemma_walk_members(opp, p.side, p.price, p.quantity);
        assert(amount <= u64::MAX) by {
            assert(v0[tk].0 <= u64::MAX);
        }
        let pre = fs.subrange(0, n - 1);
        let cur = fs.subrange(0, n);
        assert(cur.drop_last() =~= pre);
        let f = fs[n - 1];
        assert(cur.last() == f);
        let m = settle_all(locked, pre, p.user_id@, p.side, base, quote, p.price);
        let j = choose|j: int| 0 <= j < opp.len() && f.user_id == opp[j].user_id && opp[j].side == opposite(p.side);
        let km = escrow_key(f.user_id@, opposite(p.side), base, quote);
        assert(escrow_key(opp[j].user_id@, opp[j].side, base, quote) == km);
        assert(v0.contains_key(km));
        lemma_settle_all_keeps_accounts(locked, pre, p.user_id@, p.side, base, quote, p.price);
        assert(m.contains_key(km));
        assert(m.contains_key(tk));
        assert forall|k: AccountKey| #[trigger] locked_in(m, k) >= fill_release(f, p.user_id@, p.side, base, quote, p.price, k) by {
            lemma_settle_all_locked(locked, pre, p.user_id@, p.side, base, quote, p.price, k);
            lemma_release_prefix_le(fs, n, p.user_id@, p.side, base, quote, p.price, k);
            lemma_release_split(fs, p.user_id@, p.side, base, quote, p.price, k);
            lemma_walk_escrow(opp, p.side, p.price, p.quantity, base, quote, k);
            lemma_escrow_nonneg(w.1, base, quote, k);
            lemma_escrow_nonneg(b0.side_view(p.side), base, quote, k);
            lemma_book_escrow_sides(b0, p.side, k);
            assert(locked_in(l0.view(), k) >= book_escrow(b0, k));
            let rate = own_rate(p.user_id@, p.side, base, quote, p.price, k);
            assert(rate >= 0);
            assert(rate * fills_total(fs) <= rate * p.quantity) by (nonlinear_arith)
                requires rate >= 0, fills_total(fs) <= p.quantity;
            assert(rate * p.quantity == if k == tk { amount } else { 0 });
        }
        assert(locked_in(m, km) >= fill_release(f, p.user_id@, p.side, base, quote, p.price, km));
        assert(locked_in(m, tk) >= fill_release(f, p.user_id@, p.side, base, quote, p.price, tk));
        assert(crosses(p.side, p.price, f.price));
        assert(can_settle_one(m, f, p.user_id@, p.side, base, quote, p.price));
    }
}

/// On a market whose resting orders are backed by what the ledger has
/// locked, every fill of a placement that passed its lock can be settled:
/// the placement never finds the ledger corrupt.
pub proof fn lemma_create_order_settles(b0: Orderbook, l0: Ledger, p: CreateOrderPayload)
    requires
        market_wf(&b0, &l0),
        orders_backed(l0.view(), b0.bids@, b0.base_asset@, b0.quote_asset@),
        orders_backed(l0.view(), b0.asks@, b0.base_asset@, b0.quote_asset@),
        forall|k: AccountKey| #[trigger] locked_in(l0.view(), k) >= book_escrow(b0, k),
    ensures
        ({
            let base = b0.base_asset@;
            let quote = b0.quote_asset@;
            let tk = escrow_key(p.user_id@, p.side, base, quote);
            let amount = escrow_amount(p.side, p.price, p.quantity);
            let v0 = l0.view();
            let locked = v0.insert(tk, (v0[tk].0, (v0[tk].1 + amount) as u64));
            let w = match_walk(b0.side_view(opposite(p.side)), p.side, p.price, p.quantity);
            v0.contains_key(tk) && amount <= v0[tk].0 - v0[tk].1 ==> all_settle(locked, w.0, p.user_id@, p.side, base, quote, p.price)
        }),
{
    let tk = escrow_key(p.user_id@, p.side, b0.base_asset@, b0.quote_asset@);
    let v0 = l0.view();
    let w = match_walk(b0.side_view(opposite(p.side)), p.side, p.price, p.quantity);
    if v0.contains_key(tk) && escrow_amount(p.side, p.price, p.quantity) <= v0[tk].0 - v0[tk].1 {
        lemma_prefix_settles(b0, l0, p, w.0.len() as int);
        assert(w.0.subrange(0, w.0.len() as int) =~= w.0);
    }
}

/// On a market whose resting orders are backed by what the ledger has
/// locked, the order that a cancellation removes always has its escrow to
/// release: the cancellation never finds the ledger corrupt.
pub proof fn lemma_cancel_order_releases(b0: Orderbook, l0: Ledger, p: CancelOrderPayload)
    requires
        market_wf(&b0, &l0),
        orders_backed(l0.view(), b0.bids@, b0.base_asset@, b0.quote_asset@),
        orders_backed(l0.view(), b0.asks@, b0.base_asset@, b0.quote_asset@),
        forall|k: AccountKey| #[trigger] locked_in(l0.view(), k) >= book_escrow(b0, k),
    ensures
        cancel_target(b0.bids@, b0.asks@, p.order_id@) matches Some(o) ==> {
            let k = escrow_key(o.user_id@, o.side, b0.base_asset@, b0.quote_asset@);
            l0.view().contains_key(k) && escrow_amount(o.side, o.price, o.quantity) <= l0.view()[k].1
        },
{
    let base = b0.base_asset@;
    let quote = b0.quote_asset@;
    match position_of(b0.bids@, p.order_id@) {
        Some(i) => {
            let o = b0.bids@[i];
            let k = escrow_key(o.user_id@, o.side, base, quote);
            lemma_escrow_remove(b0.bids@, i, base, quote, k);
            lemma_escrow_nonneg(b0.bids@.remove(i), base, quote, k);
            lemma_escrow_nonneg(b0.asks@, base, quote, k);
            assert(locked_in(l0.view(), k) >= book_escrow(b0, k));
        },
        None => match position_of(b0.asks@, p.order_id@) {
            Some(i) => {
                let o = b0.asks@[i];
                let k = escrow_key(o.user_id@, o.side, base, quote);
                lemma_escrow_remove(b0.asks@, i, base, quote, k);
                lemma_escrow_nonneg(b0.asks@.remove(i), base, quote, k);
                lemma_escrow_nonneg(b0.bids@, base, quote, k);
                assert(locked_in(l0.view(), k) >= book_escrow(b0, k));
            },
            None => {},
        },
    }
}

proof fn lemma_backed_grow(
    m0: Map<AccountKey, (u64, u64)>,
    m1: Map<AccountKey, (u64, u64)>,
    s: Seq<Order>,
    base: Seq<char>,
    quote: Seq<char>,
)
    requires
        orders_backed(m0, s, base, quote),
        forall|k: AccountKey| m0.contains_key(k) ==> #[trigger] m1.contains_key(k),
    ensures
        orders_backed(m1, s, base, quote),
{
    assert forall|i: int| 0 <= i < s.len() implies m1.contains_key(#[trigger] escrow_key(s[i].user_id@, s[i].side, base, quote)) by {
        assert(m0.contains_key(escrow_key(s[i].user_id@, s[i].side, base, quote)));
    }
}

proof fn lemma_backed_create(
    e0: Engine,
    data: CreateOrderPayload,
    order_id: String,
    timestamp: i64,
    e1: Engine,
    r: Result<(MessageToApi, Vec<Fill>), EngineError>,
    i: int,
)
    requires
        e0.wf(),
        escrow_backed(e0),
        0 <= i < e0.markets@.len(),
        e0.markets@[i].name@ == data.market@,
        e1.others_kept(&e0, i),
        r is Err ==> r matches Err(EngineError::Ledger(_)),
        create_order_done(
            e0.markets@[i].book,
            e0.ledger,
            data,
            order_id,
            timestamp,
            e1.markets@[i].book,
            e1.ledger,
            as_order_result(r),
        ),
    ensures
        r is Ok,
        markets_backed(e1),
{
    let v0 = e0.ledger.view();
    let v1 = e1.ledger.view();
    let b0 = e0.markets@[i].book;
    let b1 = e1.markets@[i].book;
    let base = b0.base_asset@;
    let quote = b0.quote_asset@;
    assert(0 <= i < e0.markets@.len() && e0.markets@[i].name@ == data.market@);
    assert(market_wf(&b0, &e0.ledger));
    assert forall|k: AccountKey| #[trigger] locked_in(v0, k) >= book_escrow(b0, k) by {
        lemma_markets_escrow_ge(e0.markets@, i, k);
    }
    assert(orders_backed(v0, b0.bids@, base, quote) && orders_backed(v0, b0.asks@, base, quote));
    lemma_create_order_settles(b0, e0.ledger, data);
    assert(r is Ok);
    let tk = escrow_key(data.user_id@, data.side, base, quote);
    let amount = escrow_amount(data.side, data.price, data.quantity);
    let can_lock = v0.contains_key(tk) && amount <= v0[tk].0 - v0[tk].1;
    if can_lock {
        let locked = v0.insert(tk, (v0[tk].0, (v0[tk].1 + amount) as u64));
        let opp = b0.side_view(opposite(data.side));
        let w = match_walk(opp, data.side, data.price, data.quantity);
        lemma_settle_all_keeps_accounts(locked, w.0, data.user_id@, data.side, base, quote, data.price);
        assert forall|k: AccountKey| v0.contains_key(k) implies #[trigger] v1.contains_key(k) by {
            assert(locked.contains_key(k));
        }
        lemma_walk_members(opp, data.side, data.price, data.quantity);
        assert(orders_backed(v1, w.1, base, quote)) by {
            assert forall|x: int| 0 <= x < w.1.len() implies v1.contains_key(#[trigger] escrow_key(w.1[x].user_id@, w.1[x].side, base, quote)) by {
                let j = choose|j: int| 0 <= j < opp.len() && w.1[x].user_id == opp[j].user_id && w.1[x].side == opp[j].side;
                assert(v0.contains_key(escrow_key(opp[j].user_id@, opp[j].side, base, quote)));
            }
        }
        let own = b0.side_view(data.side);
        lemma_backed_grow(v0, v1, own, base, quote);
        let incoming = Order {
            id: order_id,
            user_id: data.user_id,
            price: data.price,
            quantity: w.2,
            side: data.side,
            timestamp: entry_time(b0.side_view(data.side), timestamp),
        };
        if w.2 > 0 {
            lemma_entry_point_bounds(data.side, own, incoming);
            let ep = entry_point(data.side, own, incoming);
            let n = own.insert(ep, incoming);
            assert forall|x: int| 0 <= x < n.len() implies v1.contains_key(#[trigger] escrow_key(n[x].user_id@, n[x].side, base, quote)) by {
                if x < ep {
                    assert(n[x] == own[x]);
                } else if x > ep {
                    assert(n[x] == own[x - 1]);
                } else {
                    assert(v0.contains_key(tk));
                }
            }
        }
        assert(orders_backed(v1, b1.bids@, base, quote) && orders_backed(v1, b1.asks@, base, quote));
        assert forall|j: int| 0 <= j < e1.markets@.len() implies {
            let b = (#[trigger] e1.markets@[j]).book;
            &&& orders_backed(v1, b.bids@, b.base_asset@, b.quote_asset@)
            &&& orders_backed(v1, b.asks@, b.base_asset@, b.quote_asset@)
        } by {
            if j != i {
                let b = e0.markets@[j].book;
                assert(e1.markets@[j] == e0.markets@[j]);
                lemma_backed_grow(v0, v1, b.bids@, b.base_asset@, b.quote_asset@);
                lemma_backed_grow(v0, v1, b.asks@, b.base_asset@, b.quote_asset@);
            }
        }
    } else {
        assert forall|j: int| 0 <= j < e1.markets@.len() implies {
            let b = (#[trigger] e1.markets@[j]).book;
            &&& orders_backed(v1, b.bids@, b.base_asset@, b.quote_asset@)
            &&& orders_backed(v1, b.asks@, b.base_asset@, b.quote_asset@)
        } by {
            if j != i {
                assert(e1.markets@[j] == e0.markets@[j]);
            } else {
                assert(b1.bids@ == b0.bids@ && b1.asks@ == b0.asks@);
            }
        }
    }
}

proof fn lemma_backed_remove(m: Map<AccountKey, (u64, u64)>, s: Seq<Order>, x: int, base: Seq<char>, quote: Seq<char>)
    requires
        orders_backed(m, s, base, quote),
        0 <= x < s.len(),
    ensures
        orders_backed(m, s.remove(x), base, quote),
{
    let t = s.remove(x);
    assert forall|y: int| 0 <= y < t.len() implies m.contains_key(#[trigger] escrow_key(t[y].user_id@, t[y].side, base, quote)) by {
        let z = if y < x { y } else { y + 1 };
        assert(t[y] == s[z]);
        assert(m.contains_key(escrow_key(s[z].user_id@, s[z].side, base, quote)));
    }
}

proof fn lemma_cancel_keeps_accounts(b0: Orderbook, l0: Ledger, p: CancelOrderPayload, b1: Orderbook, l1: Ledger, r: Result<MessageToApi, LedgerError>)
    requires
        cancel_order_done(b0, l0, p, b1, l1, r),
        r is Ok,
    ensures
        forall|k: AccountKey| l0.view().contains_key(k) ==> #[trigger] l1.view().contains_key(k),
{
}

proof fn lemma_backed_cancel(
    e0: Engine,
    data: CancelOrderPayload,
    e1: Engine,
    r: Result<(MessageToApi, Vec<Fill>), EngineError>,
    i: int,
)
    requires
        e0.wf(),
        escrow_backed(e0),
        0 <= i < e0.markets@.len(),
        e0.markets@[i].name@ == data.market@,
        e1.others_kept(&e0, i),
        r is Err ==> r matches Err(EngineError::Ledger(_)),
        cancel_order_done(e0.markets@[i].book, e0.ledger, data, e1.markets@[i].book, e1.ledger, as_cancel_result(r)),
    ensures
        r is Ok,
        markets_backed(e1),
{
    let v0 = e0.ledger.view();
    let v1 = e1.ledger.view();
    let b0 = e0.markets@[i].book;
    let b1 = e1.markets@[i].book;
    let base = b0.base_asset@;
    let quote = b0.quote_asset@;
    assert(market_wf(&b0, &e0.ledger));
    assert forall|k: AccountKey| #[trigger] locked_in(v0, k) >= book_escrow(b0, k) by {
        lemma_markets_escrow_ge(e0.markets@, i, k);
    }
    assert(orders_backed(v0, b0.bids@, base, quote) && orders_backed(v0, b0.asks@, base, quote));
    lemma_cancel_order_releases(b0, e0.ledger, data);
    assert(r is Ok);
    lemma_cancel_keeps_accounts(b0, e0.ledger, data, b1, e1.ledger, as_cancel_result(r));
    lemma_backed_grow(v0, v1, b0.bids@, base, quote);
    lemma_backed_grow(v0, v1, b0.asks@, base, quote);
    match position_of(b0.bids@, data.order_id@) {
        Some(x) => {
            lemma_backed_remove(v1, b0.bids@, x, base, quote);
        },
        None => match position_of(b0.asks@, data.order_id@) {
            Some(x) => {
                lemma_backed_remove(v1, b0.asks@, x, base, quote);
            },
            None => {},
        },
    }
    assert(orders_backed(v1, b1.bids@, base, quote) && orders_backed(v1, b1.asks@, base, quote));
    assert forall|j: int| 0 <= j < e1.markets@.len() implies {
        let b = (#[trigger] e1.markets@[j]).book;
        &&& orders_backed(v1, b.bids@, b.base_asset@, b.quote_asset@)
        &&& orders_backed(v1, b.asks@, b.base_asset@, b.quote_asset@)
    } by {
        if j != i {
            let b = e0.markets@[j].book;
            assert(e1.markets@[j] == e0.markets@[j]);
            lemma_backed_grow(v0, v1, b.bids@, b.base_asset@, b.quote_asset@);
            lemma_backed_grow(v0, v1, b.asks@, b.base_asset@, b.quote_asset@);
        }
    }
}

/// The escrow invariant holds of the engine as it starts from empty books,
/// and every request keeps it; and while it holds, no request finds the
/// ledger corrupt.
pub proof fn lemma_escrow_invariant(
    e0: Engine,
    message: MessageFromApi,
    order_id: String,
    timestamp: i64,
    e1: Engine,
    r: Result<(MessageToApi, Vec<Fill>), EngineError>,
)
    requires
        e0.wf(),
        escrow_backed(e0),
        process_outcome(e0, message, order_id, timestamp, e1, r),
    ensures
        !(r matches Err(EngineError::Ledger(_))),
        escrow_backed(e1),
{
    let v0 = e0.ledger.view();
    let v1 = e1.ledger.view();
    match message {
        MessageFromApi::CreateOrder { data } => {
            if let Some(i) = market_index(e0.markets@, data.market@) {
                assert(0 <= i < e0.markets@.len() && e0.markets@[i].name@ == data.market@);
                if e0.ledger.has_user(data.user_id@) {
                    lemma_backed_create(e0, data, order_id, timestamp, e1, r, i);
                }
                lemma_escrow_conservation(e0, message, order_id, timestamp, e1, r);
            }
        },
        MessageFromApi::CancelOrder { data } => {
            if let Some(i) = market_index(e0.markets@, data.market@) {
                assert(0 <= i < e0.markets@.len() && e0.markets@[i].name@ == data.market@);
                lemma_backed_cancel(e0, data, e1, r, i);
                lemma_escrow_conservation(e0, message, order_id, timestamp, e1, r);
            }
        },
        MessageFromApi::CreateMarket { data } => {
            lemma_escrow_conservation(e0, message, order_id, timestamp, e1, r);
            if r is Ok {
                let n = e0.markets@.len() as int;
                assert forall|j: int| 0 <= j < e1.markets@.len() implies {
                    let b = (#[trigger] e1.markets@[j]).book;
                    &&& orders_backed(v1, b.bids@, b.base_asset@, b.quote_asset@)
                    &&& orders_backed(v1, b.asks@, b.base_asset@, b.quote_asset@)
                } by {
                    if j < n {
                        assert(e1.markets@[j] == e1.markets@.subrange(0, n)[j]);
                    }
                }
            }
        },
        _ => {},
    }
}

} // verus!
