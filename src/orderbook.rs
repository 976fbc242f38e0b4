use vstd::prelude::*;
use crate::types::{DepthPayload, Fill, Order, OrderSide, QuotePayload};

verus! {

/// Does an order at `(price, ts)` come strictly before one at
/// `(other_price, other_ts)` on `side`? Bids go best (highest) price first,
/// asks best (lowest) price first, and within one price the earlier order
/// first.
pub open spec fn ahead(side: OrderSide, price: u64, ts: i64, other_price: u64, other_ts: i64) -> bool {
    match side {
        OrderSide::Bid => price > other_price || (price == other_price && ts < other_ts),
        OrderSide::Ask => price < other_price || (price == other_price && ts < other_ts),
    }
}

/// `a` may stand before `b` on `side`: `b` is not strictly ahead of `a`.
pub open spec fn not_behind(side: OrderSide, a: Order, b: Order) -> bool {
    !ahead(side, b.price, b.timestamp, a.price, a.timestamp)
}

/// The orders of one side in price-time priority: no order is strictly ahead
/// of one that stands before it.
pub open spec fn sorted_side(side: OrderSide, s: Seq<Order>) -> bool {
    forall|i: int, j: int| 0 <= i < j < s.len() ==> #[trigger] not_behind(side, s[i], s[j])
}

/// Every order of the sequence rests on `side` with a positive quantity.
pub open spec fn resting_on(side: OrderSide, s: Seq<Order>) -> bool {
    forall|i: int| 0 <= i < s.len() ==> (#[trigger] s[i]).side == side && s[i].quantity > 0
}

/// A well-formed side: sorted, and holding only live orders of that side.
pub open spec fn side_wf(side: OrderSide, s: Seq<Order>) -> bool {
    sorted_side(side, s) && resting_on(side, s)
}

pub open spec fn opposite(side: OrderSide) -> OrderSide {
    match side {
        OrderSide::Bid => OrderSide::Ask,
        OrderSide::Ask => OrderSide::Bid,
    }
}

/// Does a resting order at `maker_price` cross an incoming order on `side`
/// with limit `limit`? A buy takes asks priced at or below its limit, a sell
/// takes bids priced at or above it.
pub open spec fn crosses(side: OrderSide, limit: u64, maker_price: u64) -> bool {
    match side {
        OrderSide::Bid => maker_price <= limit,
        OrderSide::Ask => maker_price >= limit,
    }
}

/// The fill of `quantity` against the resting order `o`, at `o`'s price.
pub open spec fn fill_of(o: Order, quantity: u64) -> Fill {
    Fill { order_id: o.id, user_id: o.user_id, price: o.price, quantity }
}

/// The walk of an incoming order (`side`, `limit`, `qty`) along the opposite
/// side `s` in its priority order: the fills made, what is left of `s`, and
/// the incoming quantity left over. The walk stops when the quantity is used
/// up, the side is empty, or the next resting order does not cross.
pub open spec fn match_walk(s: Seq<Order>, side: OrderSide, limit: u64, qty: u64) -> (Seq<Fill>, Seq<Order>, u64)
    decreases s.len(),
{
    if qty == 0 || s.len() == 0 || !crosses(side, limit, s[0].price) {
        (Seq::empty(), s, qty)
    } else if s[0].quantity <= qty {
        let rest = match_walk(s.drop_first(), side, limit, (qty - s[0].quantity) as u64);
        (seq![fill_of(s[0], s[0].quantity)] + rest.0, rest.1, rest.2)
    } else {
        (seq![fill_of(s[0], qty)], s.update(0, Order { quantity: (s[0].quantity - qty) as u64, ..s[0] }), 0)
    }
}

/// The position at which a new order `o` enters side `s`: after every order
/// that it is not strictly ahead of.
pub open spec fn entry_point(side: OrderSide, s: Seq<Order>, o: Order) -> int
    decreases s.len(),
{
    if s.len() == 0 {
        0
    } else if ahead(side, o.price, o.timestamp, s[0].price, s[0].timestamp) {
        0
    } else {
        1 + entry_point(side, s.drop_first(), o)
    }
}

/// Side `s` with `o` placed at its entry point.
pub open spec fn with_entry(side: OrderSide, s: Seq<Order>, o: Order) -> Seq<Order> {
    s.insert(entry_point(side, s, o), o)
}

/// Resting quantity of a side aggregated by price level, in the order of the
/// side: consecutive orders at one price form one level.
pub open spec fn levels(s: Seq<Order>) -> Seq<(u64, int)>
    decreases s.len(),
{
    if s.len() == 0 {
        Seq::empty()
    } else {
        let prev = levels(s.drop_last());
        let o = s.last();
        if prev.len() > 0 && prev.last().0 == o.price {
            prev.update(prev.len() - 1, (o.price, prev.last().1 + o.quantity))
        } else {
            prev.push((o.price, o.quantity as int))
        }
    }
}

/// The depth levels as integers.
pub open spec fn level_view(v: Seq<(u64, u128)>) -> Seq<(u64, int)> {
    v.map_values(|l: (u64, u128)| (l.0, l.1 as int))
}

/// A dry-run walk that takes up to `qty` from `s` in order, whatever the
/// prices: the quantity that can be had and what it costs in all.
pub open spec fn quote_walk(s: Seq<Order>, qty: int) -> (int, int)
    decreases s.len(),
{
    if qty <= 0 || s.len() == 0 {
        (0, 0)
    } else {
        let take = if s[0].quantity < qty { s[0].quantity as int } else { qty };
        let rest = quote_walk(s.drop_first(), qty - take);
        (take + rest.0, s[0].price * take + rest.1)
    }
}

/// The first position of an order with id `id` in `s`, if any.
pub open spec fn position_of(s: Seq<Order>, id: Seq<char>) -> Option<int> {
    if exists|i: int| 0 <= i < s.len() && s[i].id@ == id && forall|k: int| 0 <= k < i ==> s[k].id@ != id {
        Some(choose|i: int| 0 <= i < s.len() && s[i].id@ == id && forall|k: int| 0 <= k < i ==> s[k].id@ != id)
    } else {
        None
    }
}

/// The orders of `s` owned by `user`, in the order of `s`.
pub open spec fn owned_by(s: Seq<Order>, user: Seq<char>) -> Seq<Order>
    decreases s.len(),
{
    if s.len() == 0 {
        Seq::empty()
    } else if s.last().user_id@ == user {
        owned_by(s.drop_last(), user).push(s.last())
    } else {
        owned_by(s.drop_last(), user)
    }
}

/// The quantity that a sequence of fills trades in all.
pub open spec fn fills_total(f: Seq<Fill>) -> int
    decreases f.len(),
{
    if f.len() == 0 {
        0
    } else {
        f[0].quantity + fills_total(f.drop_first())
    }
}

fn crosses_exec(side: OrderSide, limit: u64, maker_price: u64) -> (r: bool)
    ensures
        r == crosses(side, limit, maker_price),
{
    match side {
        OrderSide::Bid => maker_price <= limit,
        OrderSide::Ask => maker_price >= limit,
    }
}

fn ahead_exec(side: OrderSide, price: u64, ts: i64, other_price: u64, other_ts: i64) -> (r: bool)
    ensures
        r == ahead(side, price, ts, other_price, other_ts),
{
    match side {
        OrderSide::Bid => price > other_price || (price == other_price && ts < other_ts),
        OrderSide::Ask => price < other_price || (price == other_price && ts < other_ts),
    }
}

/// What the walk leaves of a well-formed side is well-formed, and its fills
/// trade what the incoming order lost.
pub proof fn lemma_walk(s: Seq<Order>, side: OrderSide, limit: u64, qty: u64)
    requires
        side_wf(opposite(side), s),
    ensures
        side_wf(opposite(side), match_walk(s, side, limit, qty).1),
        match_walk(s, side, limit, qty).2 <= qty,
        fills_total(match_walk(s, side, limit, qty).0) == qty - match_walk(s, side, limit, qty).2,
        forall|i: int| 0 <= i < match_walk(s, side, limit, qty).0.len()
            ==> crosses(side, limit, (#[trigger] match_walk(s, side, limit, qty).0[i]).price),
    decreases s.len(),
{
    let o = opposite(side);
    if qty == 0 || s.len() == 0 || !crosses(side, limit, s[0].price) {
        assert(fills_total(Seq::<Fill>::empty()) == 0);
    } else if s[0].quantity <= qty {
        let t = s.drop_first();
        assert forall|i: int, j: int| 0 <= i < j < t.len() implies #[trigger] not_behind(o, t[i], t[j]) by {
            assert(not_behind(o, s[i + 1], s[j + 1]));
        }
        assert forall|i: int| 0 <= i < t.len() implies (#[trigger] t[i]).side == o && t[i].quantity > 0 by {
            assert(s[i + 1] == t[i]);
        }
        lemma_walk(t, side, limit, (qty - s[0].quantity) as u64);
        let rest = match_walk(t, side, limit, (qty - s[0].quantity) as u64);
        let f = seq![fill_of(s[0], s[0].quantity)] + rest.0;
        assert(f.drop_first() =~= rest.0);
        assert(f[0] == fill_of(s[0], s[0].quantity));
        assert(fills_total(f) == s[0].quantity + fills_total(rest.0));
        assert forall|i: int| 0 <= i < f.len() implies crosses(side, limit, (#[trigger] f[i]).price) by {
            if i > 0 {
                assert(f[i] == rest.0[i - 1]);
            }
        }
    } else {
        let u = s.update(0, Order { quantity: (s[0].quantity - qty) as u64, ..s[0] });
        assert forall|i: int, j: int| 0 <= i < j < u.len() implies #[trigger] not_behind(o, u[i], u[j]) by {
            assert(not_behind(o, s[i], s[j]));
        }
        assert forall|i: int| 0 <= i < u.len() implies (#[trigger] u[i]).side == o && u[i].quantity > 0 by {
            assert(s[i].side == o);
        }
        let f = seq![fill_of(s[0], qty)];
        assert(f.drop_first() =~= Seq::<Fill>::empty());
        assert(f[0] == fill_of(s[0], qty));
        assert(fills_total(Seq::<Fill>::empty()) == 0);
        assert(fills_total(f) == qty);
    }
}

/// What the walk leaves of a side is a suffix of it, ids kept.
proof fn lemma_walk_suffix(s: Seq<Order>, side: OrderSide, limit: u64, qty: u64)
    ensures
        exists|k: int| #[trigger] ids_suffix(s, match_walk(s, side, limit, qty).1, k),
    decreases s.len(),
{
    if qty == 0 || s.len() == 0 || !crosses(side, limit, s[0].price) {
        assert(ids_of(s) =~= ids_of(s).subrange(0, s.len() as int));
        assert(ids_suffix(s, s, 0));
        assert(match_walk(s, side, limit, qty).1 == s);
    } else if s[0].quantity <= qty {
        let t = s.drop_first();
        lemma_walk_suffix(t, side, limit, (qty - s[0].quantity) as u64);
        let rest = match_walk(t, side, limit, (qty - s[0].quantity) as u64);
        let k = choose|k: int| #[trigger] ids_suffix(t, rest.1, k);
        assert(ids_of(t) =~= ids_of(s).subrange(1, s.len() as int));
        assert(ids_of(rest.1) =~= ids_of(s).subrange(k + 1, s.len() as int));
        assert(ids_suffix(s, rest.1, k + 1));
        assert(match_walk(s, side, limit, qty).1 == rest.1);
    } else {
        let u = s.update(0, Order { quantity: (s[0].quantity - qty) as u64, ..s[0] });
        assert(ids_of(u) =~= ids_of(s).subrange(0, s.len() as int));
        assert(ids_suffix(s, u, 0));
        assert(match_walk(s, side, limit, qty).1 == u);
    }
}

/// The entry point is the first position whose order the new one is
/// strictly ahead of.
proof fn lemma_entry_point(side: OrderSide, s: Seq<Order>, o: Order, i: int)
    requires
        0 <= i <= s.len(),
        forall|k: int| 0 <= k < i ==> !ahead(side, o.price, o.timestamp, #[trigger] s[k].price, s[k].timestamp),
        i == s.len() || ahead(side, o.price, o.timestamp, s[i].price, s[i].timestamp),
    ensures
        entry_point(side, s, o) == i,
    decreases i,
{
    if i > 0 {
        let t = s.drop_first();
        assert forall|k: int| 0 <= k < i - 1 implies !ahead(side, o.price, o.timestamp, #[trigger] t[k].price, t[k].timestamp) by {
            assert(t[k] == s[k + 1]);
        }
        lemma_entry_point(side, t, o, i - 1);
    }
}

/// Matches an incoming order on `side` (limit `limit`, quantity `qty`)
/// against the opposite side `opp`, removing what it consumes; returns the
/// fills and the incoming quantity left.
fn match_side(opp: &mut Vec<Order>, side: OrderSide, limit: u64, qty: u64) -> (r: (Vec<Fill>, u64))
    ensures
        (r.0@, final(opp)@, r.1) == match_walk(old(opp)@, side, limit, qty),
{
    let ghost orig = opp@;
    let mut fills: Vec<Fill> = Vec::new();
    let mut rem: u64 = qty;
    while rem > 0 && opp.len() > 0 && crosses_exec(side, limit, opp[0].price)
        invariant
            fills@ + match_walk(opp@, side, limit, rem).0 == match_walk(orig, side, limit, qty).0,
            match_walk(opp@, side, limit, rem).1 == match_walk(orig, side, limit, qty).1,
            match_walk(opp@, side, limit, rem).2 == match_walk(orig, side, limit, qty).2,
        decreases opp@.len() + rem,
    {
        let ghost before = opp@;
        let ghost fb = fills@;
        let mq = opp[0].quantity;
        if mq <= rem {
            let o = opp.remove(0);
            assert(opp@ =~= before.drop_first());
            let f = Fill { order_id: o.id, user_id: o.user_id, price: o.price, quantity: o.quantity };
            fills.push(f);
            rem = rem - mq;
            let ghost rest = match_walk(opp@, side, limit, rem).0;
            assert(fb.push(f) + rest =~= fb + (seq![f] + rest));
        } else {
            let f = Fill {
                order_id: opp[0].id.clone(),
                user_id: opp[0].user_id.clone(),
                price: opp[0].price,
                quantity: rem,
            };
            fills.push(f);
            opp[0].quantity = mq - rem;
            assert(opp@ =~= before.update(0, Order { quantity: (mq - rem) as u64, ..before[0] }));
            rem = 0;
            assert(fb.push(f) + Seq::<Fill>::empty() =~= fb + seq![f]);
        }
    }
    assert(fills@ + Seq::<Fill>::empty() =~= fills@);
    (fills, rem)
}

/// Places `o` on its side `s` at its entry point.
fn rest_on_side(s: &mut Vec<Order>, side: OrderSide, o: Order)
    requires
        side_wf(side, old(s)@),
        o.side == side,
        o.quantity > 0,
    ensures
        final(s)@ == with_entry(side, old(s)@, o),
        side_wf(side, final(s)@),
{
    let mut i: usize = 0;
    while i < s.len() && !ahead_exec(side, o.price, o.timestamp, s[i].price, s[i].timestamp)
        invariant
            i <= s@.len(),
            forall|k: int| 0 <= k < i ==> !ahead(side, o.price, o.timestamp, #[trigger] s@[k].price, s@[k].timestamp),
        decreases s@.len() - i,
    {
        i = i + 1;
    }
    let ghost old_s = s@;
    proof {
        lemma_entry_point(side, old_s, o, i as int);
    }
    s.insert(i, o);
    let ghost n = s@;
    assert forall|a: int, b: int| 0 <= a < b < n.len() implies #[trigger] not_behind(side, n[a], n[b]) by {
        if b < i {
            assert(not_behind(side, old_s[a], old_s[b]));
        } else if a > i {
            assert(not_behind(side, old_s[a - 1], old_s[b - 1]));
        } else if a == i {
            assert(ahead(side, o.price, o.timestamp, old_s[i as int].price, old_s[i as int].timestamp));
            if b - 1 > i {
                assert(not_behind(side, old_s[i as int], old_s[b - 1]));
            }
        } else {
            assert(n[a] == old_s[a]);
        }
    }
    assert forall|k: int| 0 <= k < n.len() implies (#[trigger] n[k]).side == side && n[k].quantity > 0 by {
        if k < i {
            assert(n[k] == old_s[k]);
        } else if k > i {
            assert(n[k] == old_s[k - 1]);
        }
    }
}

/// The first position of an order with id `id` in `s`, if any.
fn find_id(s: &Vec<Order>, id: &String) -> (r: Option<usize>)
    ensures
        match r {
            Some(i) => i < s@.len() && position_of(s@, id@) == Some(i as int) && s@[i as int].id@ == id@,
            None => position_of(s@, id@) is None && !has_id(s@, id@),
        },
{
    let mut i: usize = 0;
    while i < s.len()
        invariant
            i <= s@.len(),
            forall|k: int| 0 <= k < i ==> (#[trigger] s@[k]).id@ != id@,
        decreases s@.len() - i,
    {
        if s[i].id == *id {
            proof {
                let ii = i as int;
                let p = |j: int| 0 <= j < s@.len() && s@[j].id@ == id@ && forall|k: int| 0 <= k < j ==> s@[k].id@ != id@;
                assert(p(ii));
                let c = choose|j: int| 0 <= j < s@.len() && s@[j].id@ == id@ && forall|k: int| 0 <= k < j ==> s@[k].id@ != id@;
                assert(p(c));
                if c < ii {
                    assert(s@[c].id@ != id@);
                } else if c > ii {
                    assert(s@[ii].id@ != id@);
                }
            }
            return Some(i);
        }
        i = i + 1;
    }
    None
}

/// The depth levels of side `s`.
fn side_levels(s: &Vec<Order>) -> (r: Vec<(u64, u128)>)
    ensures
        level_view(r@) == levels(s@),
{
    let mut out: Vec<(u64, u128)> = Vec::new();
    let mut i: usize = 0;
    while i < s.len()
        invariant
            i <= s@.len(),
            level_view(out@) == levels(s@.subrange(0, i as int)),
            forall|k: int| 0 <= k < out@.len() ==> (#[trigger] out@[k]).1 <= i * 0xFFFF_FFFF_FFFF_FFFFu128,
        decreases s@.len() - i,
    {
        let ghost pre = s@.subrange(0, i as int);
        let ghost cur = s@.subrange(0, i + 1);
        assert(cur.drop_last() =~= pre);
        let ghost prev_out = out@;
        let price = s[i].price;
        let q = s[i].quantity;
        let n = out.len();
        if n > 0 && out[n - 1].0 == price {
            let last = out[n - 1].1;
            assert(last <= i * 0xFFFF_FFFF_FFFF_FFFFu128);
            assert(i < 0x1_0000_0000_0000_0000u128);
            out.set(n - 1, (price, last + q as u128));
            assert(level_view(out@) =~= level_view(prev_out).update(n - 1, (price, level_view(prev_out).last().1 + q)));
        } else {
            out.push((price, q as u128));
            assert(level_view(out@) =~= level_view(prev_out).push((price, q as int)));
        }
        i = i + 1;
    }
    assert(s@.subrange(0, s@.len() as int) =~= s@);
    out
}

/// The dry-run walk of `quote_walk` over `s`.
fn quote_side(s: &Vec<Order>, qty: u64) -> (r: (u64, u128))
    ensures
        (r.0 as int, r.1 as int) == quote_walk(s@, qty as int),
{
    let mut i: usize = 0;
    let mut rem: u64 = qty;
    let mut filled: u64 = 0;
    let mut cost: u128 = 0;
    assert(s@.subrange(0, s@.len() as int) =~= s@);
    while i < s.len() && rem > 0
        invariant
            i <= s@.len(),
            filled + rem == qty,
            cost <= filled * 0xFFFF_FFFF_FFFF_FFFFu128,
            filled + quote_walk(s@.subrange(i as int, s@.len() as int), rem as int).0 == quote_walk(s@, qty as int).0,
            cost + quote_walk(s@.subrange(i as int, s@.len() as int), rem as int).1 == quote_walk(s@, qty as int).1,
        decreases s@.len() - i,
    {
        let ghost t = s@.subrange(i as int, s@.len() as int);
        assert(t.drop_first() =~= s@.subrange(i + 1, s@.len() as int));
        let price = s[i].price;
        let take = if s[i].quantity < rem { s[i].quantity } else { rem };
        assert(price * take <= 0xFFFF_FFFF_FFFF_FFFFu128 * take) by (nonlinear_arith)
            requires price <= 0xFFFF_FFFF_FFFF_FFFFu64;
        assert(filled * 0xFFFF_FFFF_FFFF_FFFFu128 + 0xFFFF_FFFF_FFFF_FFFFu128 * take
            == (filled + take) * 0xFFFF_FFFF_FFFF_FFFFu128) by (nonlinear_arith);
        assert((filled + take) * 0xFFFF_FFFF_FFFF_FFFFu128 <= 0xFFFF_FFFF_FFFF_FFFFu128 * 0xFFFF_FFFF_FFFF_FFFFu128) by (nonlinear_arith)
            requires filled + take <= 0xFFFF_FFFF_FFFF_FFFFu64;
        cost = cost + (price as u128) * (take as u128);
        filled = filled + take;
        rem = rem - take;
        i = i + 1;
    }
    proof {
        let t = s@.subrange(i as int, s@.len() as int);
        assert(quote_walk(t, rem as int) == (0int, 0int));
    }
    (filled, cost)
}

/// The orders of `s` owned by `user`.
fn side_owned_by(s: &Vec<Order>, user: &String, out: &mut Vec<Order>)
    ensures
        final(out)@ == old(out)@ + owned_by(s@, user@),
{
    let ghost start = out@;
    let mut i: usize = 0;
    while i < s.len()
        invariant
            i <= s@.len(),
            out@ == start + owned_by(s@.subrange(0, i as int), user@),
        decreases s@.len() - i,
    {
        let ghost cur = s@.subrange(0, i + 1);
        assert(cur.drop_last() =~= s@.subrange(0, i as int));
        if s[i].user_id == *user {
            out.push(s[i].duplicate());
            assert(out@ =~= start + owned_by(cur, user@));
        }
        i = i + 1;
    }
    assert(s@.subrange(0, s@.len() as int) =~= s@);
}

proof fn lemma_remove_keeps_wf(side: OrderSide, s: Seq<Order>, i: int)
    requires
        side_wf(side, s),
        0 <= i < s.len(),
    ensures
        side_wf(side, s.remove(i)),
{
    let t = s.remove(i);
    assert forall|a: int, b: int| 0 <= a < b < t.len() implies #[trigger] not_behind(side, t[a], t[b]) by {
        let a2 = if a < i { a } else { a + 1 };
        let b2 = if b < i { b } else { b + 1 };
        assert(not_behind(side, s[a2], s[b2]));
    }
    assert forall|k: int| 0 <= k < t.len() implies (#[trigger] t[k]).side == side && t[k].quantity > 0 by {
        let k2 = if k < i { k } else { k + 1 };
        assert(t[k] == s[k2]);
    }
}

/// The order that a cancellation of `id` removes: the first with that id
/// among the bids, else the first among the asks.
pub open spec fn cancel_target(bids: Seq<Order>, asks: Seq<Order>, id: Seq<char>) -> Option<Order> {
    match position_of(bids, id) {
        Some(i) => Some(bids[i]),
        None => match position_of(asks, id) {
            Some(i) => Some(asks[i]),
            None => None,
        },
    }
}

/// The two sides after a cancellation of `id`.
pub open spec fn after_cancel(bids: Seq<Order>, asks: Seq<Order>, id: Seq<char>) -> (Seq<Order>, Seq<Order>) {
    match position_of(bids, id) {
        Some(i) => (bids.remove(i), asks),
        None => match position_of(asks, id) {
            Some(i) => (bids, asks.remove(i)),
            None => (bids, asks),
        },
    }
}

/// Price-time priority, stated over prices and admission times: bids never
/// rise and asks never fall along their side, and orders at one price stand
/// in the order of their admission. Every operation of the book keeps `wf`,
/// so this holds after any sequence of them.
pub proof fn lemma_price_priority(book: Orderbook)
    requires
        book.wf(),
    ensures
        forall|i: int, j: int|
            0 <= i < j < book.bids@.len() ==> #[trigger] book.bids@[i].price >= #[trigger] book.bids@[j].price && (
            book.bids@[i].price == book.bids@[j].price ==> book.bids@[i].timestamp <= book.bids@[j].timestamp),
        forall|i: int, j: int|
            0 <= i < j < book.asks@.len() ==> #[trigger] book.asks@[i].price <= #[trigger] book.asks@[j].price && (
            book.asks@[i].price == book.asks@[j].price ==> book.asks@[i].timestamp <= book.asks@[j].timestamp),
{
    assert forall|i: int, j: int| 0 <= i < j < book.bids@.len() implies #[trigger] book.bids@[i].price
        >= #[trigger] book.bids@[j].price && (book.bids@[i].price == book.bids@[j].price ==> book.bids@[i].timestamp
        <= book.bids@[j].timestamp) by {
        assert(not_behind(OrderSide::Bid, book.bids@[i], book.bids@[j]));
    }
    assert forall|i: int, j: int| 0 <= i < j < book.asks@.len() implies #[trigger] book.asks@[i].price
        <= #[trigger] book.asks@[j].price && (book.asks@[i].price == book.asks@[j].price ==> book.asks@[i].timestamp
        <= book.asks@[j].timestamp) by {
        assert(not_behind(OrderSide::Ask, book.asks@[i], book.asks@[j]));
    }
}

/// Does an order with id `id` stand in `s`?
pub open spec fn has_id(s: Seq<Order>, id: Seq<char>) -> bool {
    exists|i: int| 0 <= i < s.len() && #[trigger] s[i].id@ == id
}

/// No two orders of `s` share an id.
pub open spec fn unique_ids(s: Seq<Order>) -> bool {
    forall|i: int, j: int| 0 <= i < s.len() && 0 <= j < s.len() && #[trigger] s[i].id@ == #[trigger] s[j].id@ ==> i == j
}

/// No order of `a` shares its id with one of `b`.
pub open spec fn disjoint_ids(a: Seq<Order>, b: Seq<Order>) -> bool {
    forall|i: int, j: int| 0 <= i < a.len() && 0 <= j < b.len() ==> #[trigger] a[i].id@ != #[trigger] b[j].id@
}

/// Every resting order of the book has an id of its own.
pub open spec fn ids_distinct(bids: Seq<Order>, asks: Seq<Order>) -> bool {
    unique_ids(bids) && unique_ids(asks) && disjoint_ids(bids, asks)
}

/// Does an order with id `id` rest on either side?
pub open spec fn id_rests(bids: Seq<Order>, asks: Seq<Order>, id: Seq<char>) -> bool {
    has_id(bids, id) || has_id(asks, id)
}

/// The ids of `s`, in order.
pub open spec fn ids_of(s: Seq<Order>) -> Seq<Seq<char>> {
    s.map_values(|o: Order| o.id@)
}

/// `t` is what is left of `s` from position `k` on, ids kept.
pub open spec fn ids_suffix(s: Seq<Order>, t: Seq<Order>, k: int) -> bool {
    0 <= k <= s.len() && ids_of(t) == ids_of(s).subrange(k, s.len() as int)
}

/// Ids are kept distinct when `t` replaces `s` by a suffix of it, and `t`
/// holds no id that `s` did not.
proof fn lemma_suffix_ids(s: Seq<Order>, t: Seq<Order>, k: int, other: Seq<Order>)
    requires
        ids_suffix(s, t, k),
        unique_ids(s),
        disjoint_ids(s, other),
    ensures
        unique_ids(t),
        disjoint_ids(t, other),
        disjoint_ids(other, t),
        forall|id: Seq<char>| #[trigger] has_id(t, id) ==> has_id(s, id),
{
    assert(t.len() == ids_of(t).len());
    assert forall|i: int| 0 <= i < t.len() implies (#[trigger] t[i]).id@ == s[i + k].id@ by {
        assert(ids_of(t)[i] == t[i].id@);
        assert(ids_of(s)[i + k] == s[i + k].id@);
    }
    assert forall|i: int, j: int| 0 <= i < t.len() && 0 <= j < t.len() && #[trigger] t[i].id@ == #[trigger] t[j].id@ implies i == j by {
        assert(s[i + k].id@ == s[j + k].id@);
    }
    assert forall|i: int, j: int| 0 <= i < t.len() && 0 <= j < other.len() implies #[trigger] t[i].id@ != #[trigger] other[j].id@ by {
        assert(s[i + k].id@ != other[j].id@);
    }
    assert forall|id: Seq<char>| #[trigger] has_id(t, id) implies has_id(s, id) by {
        let i = choose|i: int| 0 <= i < t.len() && #[trigger] t[i].id@ == id;
        assert(s[i + k].id@ == id);
    }
}

/// Ids are kept distinct when one order is removed from `s`.
proof fn lemma_remove_ids(s: Seq<Order>, x: int, other: Seq<Order>)
    requires
        0 <= x < s.len(),
        unique_ids(s),
        disjoint_ids(s, other),
    ensures
        unique_ids(s.remove(x)),
        disjoint_ids(s.remove(x), other),
        disjoint_ids(other, s.remove(x)),
        !has_id(s.remove(x), s[x].id@),
        !has_id(other, s[x].id@),
{
    let t = s.remove(x);
    assert forall|i: int, j: int| 0 <= i < t.len() && 0 <= j < t.len() && #[trigger] t[i].id@ == #[trigger] t[j].id@ implies i == j by {
        let a = if i < x { i } else { i + 1 };
        let b = if j < x { j } else { j + 1 };
        assert(t[i] == s[a] && t[j] == s[b]);
    }
    assert forall|i: int, j: int| 0 <= i < t.len() && 0 <= j < other.len() implies #[trigger] t[i].id@ != #[trigger] other[j].id@ by {
        let a = if i < x { i } else { i + 1 };
        assert(t[i] == s[a]);
    }
    if has_id(t, s[x].id@) {
        let i = choose|i: int| 0 <= i < t.len() && #[trigger] t[i].id@ == s[x].id@;
        let a = if i < x { i } else { i + 1 };
        assert(t[i] == s[a]);
    }
    if has_id(other, s[x].id@) {
        let j = choose|j: int| 0 <= j < other.len() && #[trigger] other[j].id@ == s[x].id@;
        assert(s[x].id@ != other[j].id@);
    }
}

/// Ids are kept distinct when an order of a new id enters `s`.
proof fn lemma_insert_ids(s: Seq<Order>, x: int, o: Order, other: Seq<Order>)
    requires
        0 <= x <= s.len(),
        unique_ids(s),
        disjoint_ids(s, other),
        !has_id(s, o.id@),
        !has_id(other, o.id@),
    ensures
        unique_ids(s.insert(x, o)),
        disjoint_ids(s.insert(x, o), other),
        disjoint_ids(other, s.insert(x, o)),
{
    let t = s.insert(x, o);
    assert forall|i: int, j: int| 0 <= i < t.len() && 0 <= j < t.len() && #[trigger] t[i].id@ == #[trigger] t[j].id@ implies i == j by {
        if i != x && j != x {
            let a = if i < x { i } else { i - 1 };
            let b = if j < x { j } else { j - 1 };
            assert(t[i] == s[a] && t[j] == s[b]);
        } else if i != x {
            let a = if i < x { i } else { i - 1 };
            assert(t[i] == s[a]);
        } else if j != x {
            let b = if j < x { j } else { j - 1 };
            assert(t[j] == s[b]);
        }
    }
    assert forall|i: int, j: int| 0 <= i < t.len() && 0 <= j < other.len() implies #[trigger] t[i].id@ != #[trigger] other[j].id@ by {
        if i != x {
            let a = if i < x { i } else { i - 1 };
            assert(t[i] == s[a]);
        }
    }
}

/// The latest admission time on side `s`; the least `i64` when it is empty.
pub open spec fn latest(s: Seq<Order>) -> i64
    decreases s.len(),
{
    if s.len() == 0 {
        i64::MIN
    } else if s.last().timestamp > latest(s.drop_last()) {
        s.last().timestamp
    } else {
        latest(s.drop_last())
    }
}

/// The admission time of an order placed at `timestamp` on side `s`: never
/// earlier than any order already there, whatever the clock said.
pub open spec fn entry_time(s: Seq<Order>, timestamp: i64) -> i64 {
    if timestamp >= latest(s) {
        timestamp
    } else {
        latest(s)
    }
}

pub proof fn lemma_latest(s: Seq<Order>)
    ensures
        forall|j: int| 0 <= j < s.len() ==> (#[trigger] s[j]).timestamp <= latest(s),
    decreases s.len(),
{
    if s.len() > 0 {
        lemma_latest(s.drop_last());
        assert forall|j: int| 0 <= j < s.len() implies (#[trigger] s[j]).timestamp <= latest(s) by {
            if j < s.len() - 1 {
                assert(s.drop_last()[j] == s[j]);
            }
        }
    }
}

proof fn lemma_entry_point_props(side: OrderSide, s: Seq<Order>, o: Order)
    ensures
        0 <= entry_point(side, s, o) <= s.len(),
        forall|k: int| 0 <= k < entry_point(side, s, o) ==> !ahead(side, o.price, o.timestamp, #[trigger] s[k].price, s[k].timestamp),
        entry_point(side, s, o) < s.len() ==> ahead(
            side,
            o.price,
            o.timestamp,
            s[entry_point(side, s, o)].price,
            s[entry_point(side, s, o)].timestamp,
        ),
    decreases s.len(),
{
    if s.len() > 0 && !ahead(side, o.price, o.timestamp, s[0].price, s[0].timestamp) {
        let t = s.drop_first();
        lemma_entry_point_props(side, t, o);
        assert forall|k: int| 0 <= k < entry_point(side, s, o) implies !ahead(side, o.price, o.timestamp, #[trigger] s[k].price, s[k].timestamp) by {
            if k > 0 {
                assert(s[k] == t[k - 1]);
            }
        }
    }
}

/// Price-time priority for a new order: placed with its entry time, it
/// stands after every order of its side at its own price, and before none
/// that it is not ahead of; the side stays in priority order.
pub proof fn lemma_entry_after_same_price(side: OrderSide, s: Seq<Order>, o: Order, timestamp: i64)
    requires
        sorted_side(side, s),
        o.timestamp == entry_time(s, timestamp),
    ensures
        forall|j: int| 0 <= j < s.len() && (#[trigger] s[j]).price == o.price ==> j < entry_point(side, s, o),
        with_entry(side, s, o)[entry_point(side, s, o)] == o,
{
    lemma_latest(s);
    lemma_entry_point_props(side, s, o);
    let ep = entry_point(side, s, o);
    assert forall|j: int| 0 <= j < s.len() && (#[trigger] s[j]).price == o.price implies j < ep by {
        if j >= ep {
            assert(s[j].timestamp <= o.timestamp);
            if j > ep {
                assert(not_behind(side, s[ep], s[j]));
            }
        }
    }
}

/// Does price `a` come strictly before price `b` on `side`?
pub open spec fn better_price(side: OrderSide, a: u64, b: u64) -> bool {
    match side {
        OrderSide::Bid => a > b,
        OrderSide::Ask => a < b,
    }
}

/// The entry point lies within the side.
pub proof fn lemma_entry_point_bounds(side: OrderSide, s: Seq<Order>, o: Order)
    ensures
        0 <= entry_point(side, s, o) <= s.len(),
    decreases s.len(),
{
    if s.len() > 0 {
        lemma_entry_point_bounds(side, s.drop_first(), o);
    }
}

/// The depth of a side in priority order lists each price once, best
/// first, so each level holds all the resting quantity at its price.
pub proof fn lemma_levels_ordered(side: OrderSide, s: Seq<Order>)
    requires
        sorted_side(side, s),
    ensures
        forall|i: int, j: int| 0 <= i < j < levels(s).len() ==> better_price(side, #[trigger] levels(s)[i].0, #[trigger] levels(s)[j].0),
        s.len() > 0 ==> levels(s).len() > 0 && levels(s).last().0 == s.last().price,
        forall|i: int| 0 <= i < levels(s).len() ==> exists|k: int| 0 <= k < s.len() && s[k].price == (#[trigger] levels(s)[i]).0,
    decreases s.len(),
{
    if s.len() > 0 {
        let t = s.drop_last();
        assert forall|i: int, j: int| 0 <= i < j < t.len() implies #[trigger] not_behind(side, t[i], t[j]) by {
            assert(not_behind(side, s[i], s[j]));
        }
        lemma_levels_ordered(side, t);
        let prev = levels(t);
        let o = s.last();
        assert forall|i: int| 0 <= i < prev.len() implies exists|k: int| 0 <= k < s.len() && s[k].price == (#[trigger] prev[i]).0 by {
            let k = choose|k: int| 0 <= k < t.len() && t[k].price == prev[i].0;
            assert(s[k] == t[k]);
        }
        if prev.len() > 0 && prev.last().0 == o.price {
        } else if prev.len() > 0 {
            assert(not_behind(side, s[t.len() - 1], o));
            assert(t.last() == s[t.len() - 1]);
            let n = levels(s);
            assert forall|i: int, j: int| 0 <= i < j < n.len() implies better_price(side, #[trigger] n[i].0, #[trigger] n[j].0) by {
                if j == n.len() - 1 && i < j - 1 {
                    assert(better_price(side, prev[i].0, prev[prev.len() - 1].0));
                }
            }
            assert(s[s.len() - 1].price == n[n.len() - 1].0);
        } else {
            assert(s[s.len() - 1].price == levels(s)[0].0);
        }
    }
}

/// The order book of one market: resting bids and asks, each in price-time
/// priority.
#[derive(Debug)]
pub struct Orderbook {
    pub bids: Vec<Order>,
    pub asks: Vec<Order>,
    pub base_asset: String,
    pub quote_asset: String,
}

impl Orderbook {
    /// Both sides are in priority order and hold only live orders of their side.
    pub open spec fn wf(&self) -> bool {
        &&& side_wf(OrderSide::Bid, self.bids@)
        &&& side_wf(OrderSide::Ask, self.asks@)
        &&& ids_distinct(self.bids@, self.asks@)
    }

    /// Does an order with id `id` rest in the book?
    pub open spec fn rests(&self, id: Seq<char>) -> bool {
        id_rests(self.bids@, self.asks@, id)
    }

    /// The latest admission time on `side`.
    pub fn latest_timestamp(&self, side: OrderSide) -> (r: i64)
        ensures
            r == latest(self.side_view(side)),
    {
        let s = match side {
            OrderSide::Bid => &self.bids,
            OrderSide::Ask => &self.asks,
        };
        let mut i: usize = 0;
        let mut best: i64 = i64::MIN;
        while i < s.len()
            invariant
                i <= s@.len(),
                s@ == self.side_view(side),
                best == latest(s@.subrange(0, i as int)),
            decreases s@.len() - i,
        {
            assert(s@.subrange(0, i + 1).drop_last() =~= s@.subrange(0, i as int));
            if s[i].timestamp > best {
                best = s[i].timestamp;
            }
            i = i + 1;
        }
        assert(s@.subrange(0, s@.len() as int) =~= s@);
        best
    }

    /// Whether an order with id `id` rests in the book.
    pub fn has_order(&self, id: &String) -> (r: bool)
        ensures
            r == self.rests(id@),
    {
        find_id(&self.bids, id).is_some() || find_id(&self.asks, id).is_some()
    }

    /// The orders resting on `side`.
    pub open spec fn side_view(&self, side: OrderSide) -> Seq<Order> {
        match side {
            OrderSide::Bid => self.bids@,
            OrderSide::Ask => self.asks@,
        }
    }

    /// An empty book for a market trading `base_asset` against `quote_asset`.
    pub fn new(base_asset: String, quote_asset: String) -> (r: Self)
        ensures
            r.wf(),
            r.bids@.len() == 0,
            r.asks@.len() == 0,
            r.base_asset == base_asset,
            r.quote_asset == quote_asset,
    {
        Orderbook { bids: Vec::new(), asks: Vec::new(), base_asset, quote_asset }
    }

    /// Matches an incoming order against the opposite side in its priority
    /// order, each match at the resting order's price, removing what it
    /// consumes. Returns the fills and the quantity left unmatched.
    pub fn fill_orders(&mut self, order: &Order) -> (r: (Vec<Fill>, u64))
        requires
            old(self).wf(),
        ensures
            final(self).wf(),
            final(self).base_asset == old(self).base_asset,
            final(self).quote_asset == old(self).quote_asset,
            ({
                let w = match_walk(old(self).side_view(opposite(order.side)), order.side, order.price, order.quantity);
                &&& r.0@ == w.0
                &&& r.1 == w.2
                &&& final(self).side_view(opposite(order.side)) == w.1
                &&& final(self).side_view(order.side) == old(self).side_view(order.side)
            }),
            r.1 <= order.quantity,
            fills_total(r.0@) == order.quantity - r.1,
            forall|id: Seq<char>| #[trigger] final(self).rests(id) ==> old(self).rests(id),
    {
        proof {
            lemma_walk(self.side_view(opposite(order.side)), order.side, order.price, order.quantity);
            lemma_walk_suffix(self.side_view(opposite(order.side)), order.side, order.price, order.quantity);
        }
        let ghost b0 = self.bids@;
        let ghost a0 = self.asks@;
        let r = match order.side {
            OrderSide::Bid => match_side(&mut self.asks, order.side, order.price, order.quantity),
            OrderSide::Ask => match_side(&mut self.bids, order.side, order.price, order.quantity),
        };
        proof {
            let opp0 = if order.side == OrderSide::Bid { a0 } else { b0 };
            let w = match_walk(opp0, order.side, order.price, order.quantity);
            let k = choose|k: int| #[trigger] ids_suffix(opp0, w.1, k);
            if order.side == OrderSide::Bid {
                lemma_suffix_ids(a0, self.asks@, k, b0);
            } else {
                lemma_suffix_ids(b0, self.bids@, k, a0);
            }
        }
        r
    }

    /// Rests `order` on its side, after every order it is not strictly ahead
    /// of in price-time priority.
    pub fn insert_order(&mut self, order: Order)
        requires
            old(self).wf(),
            order.quantity > 0,
            !old(self).rests(order.id@),
        ensures
            final(self).wf(),
            final(self).base_asset == old(self).base_asset,
            final(self).quote_asset == old(self).quote_asset,
            final(self).side_view(order.side) == with_entry(order.side, old(self).side_view(order.side), order),
            final(self).side_view(opposite(order.side)) == old(self).side_view(opposite(order.side)),
    {
        let ghost b0 = self.bids@;
        let ghost a0 = self.asks@;
        let ghost o = order;
        proof {
            lemma_entry_point_bounds(order.side, self.side_view(order.side), order);
        }
        match order.side {
            OrderSide::Bid => rest_on_side(&mut self.bids, OrderSide::Bid, order),
            OrderSide::Ask => rest_on_side(&mut self.asks, OrderSide::Ask, order),
        }
        proof {
            if o.side == OrderSide::Bid {
                lemma_insert_ids(b0, entry_point(OrderSide::Bid, b0, o), o, a0);
            } else {
                lemma_insert_ids(a0, entry_point(OrderSide::Ask, a0, o), o, b0);
            }
        }
    }

    /// Removes the order with id `order_id`, looking among the bids first and
    /// then among the asks; returns it, or `None` (and leaves the book as it
    /// was) when no resting order has that id.
    pub fn cancel(&mut self, order_id: &String) -> (r: Option<Order>)
        requires
            old(self).wf(),
        ensures
            final(self).wf(),
            final(self).base_asset == old(self).base_asset,
            final(self).quote_asset == old(self).quote_asset,
            r == cancel_target(old(self).bids@, old(self).asks@, order_id@),
            (final(self).bids@, final(self).asks@) == after_cancel(old(self).bids@, old(self).asks@, order_id@),
            !final(self).rests(order_id@),
    {
        let ghost b = self.bids@;
        let ghost a = self.asks@;
        match find_id(&self.bids, order_id) {
            Some(i) => {
                let o = self.bids.remove(i);
                proof {
                    lemma_remove_keeps_wf(OrderSide::Bid, b, i as int);
                    lemma_remove_ids(b, i as int, a);
                }
                Some(o)
            },
            None => match find_id(&self.asks, order_id) {
                Some(i) => {
                    let o = self.asks.remove(i);
                    proof {
                        lemma_remove_keeps_wf(OrderSide::Ask, a, i as int);
                        assert(disjoint_ids(a, b)) by {
                            assert forall|x: int, y: int| 0 <= x < a.len() && 0 <= y < b.len() implies #[trigger] a[x].id@ != #[trigger] b[y].id@ by {
                                assert(b[y].id@ != a[x].id@);
                            }
                        }
                        lemma_remove_ids(a, i as int, b);
                    }
                    Some(o)
                },
                None => None,
            },
        }
    }

    /// Resting quantity by price level on each side. Reads the book only.
    pub fn get_depth(&self) -> (r: DepthPayload)
        ensures
            level_view(r.bids@) == levels(self.bids@),
            level_view(r.asks@) == levels(self.asks@),
    {
        DepthPayload { bids: side_levels(&self.bids), asks: side_levels(&self.asks) }
    }

    /// What taking `quantity` on `side` would cost: a walk along the opposite
    /// side that changes nothing. The average price is the total cost over
    /// the quantity that can be had (see `QuotePayload`).
    pub fn get_quote_detail(&self, quantity: u64, side: OrderSide) -> (r: QuotePayload)
        ensures
            ({
                let w = quote_walk(self.side_view(opposite(side)), quantity as int);
                &&& r.quantity == quantity
                &&& r.filled_qty == w.0
                &&& r.total_cost == w.1
            }),
    {
        let w = match side {
            OrderSide::Bid => quote_side(&self.asks, quantity),
            OrderSide::Ask => quote_side(&self.bids, quantity),
        };
        QuotePayload { quantity, filled_qty: w.0, total_cost: w.1 }
    }

    /// The resting orders of `user`: their bids, then their asks, each in
    /// the order of the book.
    pub fn open_orders(&self, user: &String) -> (r: Vec<Order>)
        ensures
            r@ == owned_by(self.bids@, user@) + owned_by(self.asks@, user@),
    {
        let mut out: Vec<Order> = Vec::new();
        side_owned_by(&self.bids, user, &mut out);
        side_owned_by(&self.asks, user, &mut out);
        assert(out@ =~= owned_by(self.bids@, user@) + owned_by(self.asks@, user@));
        out
    }
}

} // verus!
