use orderbook_manager::engine::Engine;
use orderbook_manager::types::{
    CancelOrderPayload, CreateMarketPayload, CreateOrderPayload, GetDepthPayload, GetOpenOrdersPayload,
    GetQuotePayload, GetUserBalancesPayload, MessageFromApi, MessageToApi, OrderSide, Status,
};
use orderbook_manager::EngineError;

fn s(x: &str) -> String {
    x.to_string()
}

fn create(user: &str, side: OrderSide, price: u64, quantity: u64) -> MessageFromApi {
    MessageFromApi::CreateOrder {
        data: CreateOrderPayload { user_id: s(user), market: s("SOL_USDC"), price, quantity, side },
    }
}

fn cancel(user: &str, id: &str) -> MessageFromApi {
    MessageFromApi::CancelOrder {
        data: CancelOrderPayload { order_id: s(id), user_id: s(user), market: s("SOL_USDC") },
    }
}

fn depth(e: &mut Engine) -> (Vec<(u64, u128)>, Vec<(u64, u128)>) {
    let msg = MessageFromApi::GetDepth { data: GetDepthPayload { market: s("SOL_USDC") } };
    match e.process_at(msg, s("unused"), 0) {
        Ok((MessageToApi::Depth { payload }, _)) => (payload.bids, payload.asks),
        other => panic!("unexpected answer {:?}", other),
    }
}

/// (balance, locked) of `user` in `ticker`.
fn balance(e: &mut Engine, user: &str, ticker: &str) -> (u64, u64) {
    let msg = MessageFromApi::GetUserBalances { data: GetUserBalancesPayload { user_id: s(user) } };
    match e.process_at(msg, s("unused"), 0) {
        Ok((MessageToApi::UserBalances { payload }, _)) => {
            for b in payload.balances {
                if b.ticker == ticker {
                    return (b.balance, b.locked_balance);
                }
            }
            (0, 0)
        }
        other => panic!("unexpected answer {:?}", other),
    }
}

fn placed(r: Result<(MessageToApi, Vec<orderbook_manager::types::Fill>), EngineError>) -> (String, u64, u64, usize) {
    match r {
        Ok((MessageToApi::OrderPlaced { payload }, fills)) => {
            (payload.order_id, payload.filled_qty, payload.remaining_qty, fills.len())
        }
        other => panic!("unexpected answer {:?}", other),
    }
}

fn cancelled_message(r: Result<(MessageToApi, Vec<orderbook_manager::types::Fill>), EngineError>) -> String {
    match r {
        Ok((MessageToApi::OrderCancelled { payload }, _)) => payload.message.unwrap(),
        other => panic!("unexpected answer {:?}", other),
    }
}

/// An engine with the market SOL_USDC and users "a" and "b", each holding
/// `sol` SOL and `usdc` USDC.
fn engine_with(sol: u64, usdc: u64) -> Engine {
    let mut e = Engine::empty();
    for u in ["a", "b"] {
        e.ledger.add_account(&s(u), &s("SOL"), sol).unwrap();
        e.ledger.add_account(&s(u), &s("USDC"), usdc).unwrap();
    }
    e.create_market(s("SOL"), s("USDC")).unwrap();
    e
}

#[test]
fn buy_walks_two_ask_levels() {
    let mut e = Engine::new();
    placed(e.process_at(create("2", OrderSide::Ask, 100, 10), s("a1"), 1));
    placed(e.process_at(create("2", OrderSide::Ask, 101, 12), s("a2"), 2));
    let (id, filled, remaining, nfills) = placed(e.process_at(create("1", OrderSide::Bid, 101, 15), s("b1"), 3));
    assert_eq!(id, "b1");
    assert_eq!(filled, 15);
    assert_eq!(remaining, 0);
    assert_eq!(nfills, 2);
    let (bids, asks) = depth(&mut e);
    assert!(bids.is_empty());
    assert_eq!(asks, vec![(101, 7)]);
}

#[test]
fn fills_are_at_resting_prices() {
    let mut e = Engine::new();
    e.process_at(create("2", OrderSide::Ask, 100, 10), s("a1"), 1).unwrap();
    e.process_at(create("2", OrderSide::Ask, 101, 12), s("a2"), 2).unwrap();
    match e.process_at(create("1", OrderSide::Bid, 101, 15), s("b1"), 3) {
        Ok((_, fills)) => {
            assert_eq!((fills[0].price, fills[0].quantity, fills[0].order_id.as_str()), (100, 10, "a1"));
            assert_eq!((fills[1].price, fills[1].quantity, fills[1].order_id.as_str()), (101, 5, "a2"));
        }
        other => panic!("unexpected answer {:?}", other),
    }
    // the buyer paid 10*100 + 5*101 = 1505 and locks nothing afterwards
    assert_eq!(balance(&mut e, "1", "USDC"), (100_000_000 - 1505, 0));
    assert_eq!(balance(&mut e, "1", "SOL"), (100_000_015, 0));
    // the seller still escrows the 7 SOL left resting
    assert_eq!(balance(&mut e, "2", "SOL"), (100_000_000 - 15, 7));
    assert_eq!(balance(&mut e, "2", "USDC"), (100_001_505, 0));
}

#[test]
fn sell_then_cancel_restores_depth_and_lock() {
    let mut e = engine_with(10, 0);
    let (_, filled, remaining, _) = placed(e.process_at(create("a", OrderSide::Ask, 50, 10), s("o1"), 1));
    assert_eq!((filled, remaining), (0, 10));
    let (_, asks) = depth(&mut e);
    assert_eq!(asks, vec![(50, 10)]);
    assert_eq!(balance(&mut e, "a", "SOL"), (10, 10));
    let msg = cancelled_message(e.process_at(cancel("a", "o1"), s("unused"), 2));
    assert_eq!(msg, "ORDER CANCELLED");
    let (bids, asks) = depth(&mut e);
    assert!(bids.is_empty());
    assert!(asks.is_empty());
    assert_eq!(balance(&mut e, "a", "SOL"), (10, 0));
}

#[test]
fn better_price_leaves_difference_available() {
    let mut e = engine_with(100, 10_000);
    e.process_at(create("b", OrderSide::Ask, 90, 20), s("ask"), 1).unwrap();
    let (_, filled, remaining, _) = placed(e.process_at(create("a", OrderSide::Bid, 100, 5), s("bid"), 2));
    assert_eq!((filled, remaining), (5, 0));
    // paid 5 * 90 = 450; the other (100 - 90) * 5 = 50 is available, not locked
    assert_eq!(balance(&mut e, "a", "USDC"), (10_000 - 450, 0));
    assert_eq!(balance(&mut e, "a", "SOL"), (105, 0));
}

#[test]
fn cancel_unknown_order_changes_nothing() {
    let mut e = engine_with(10, 1000);
    e.process_at(create("a", OrderSide::Bid, 10, 5), s("o1"), 1).unwrap();
    let before = (balance(&mut e, "a", "USDC"), balance(&mut e, "b", "USDC"));
    let msg = cancelled_message(e.process_at(cancel("a", "nope"), s("unused"), 2));
    assert_eq!(msg, "Order not found");
    assert_eq!((balance(&mut e, "a", "USDC"), balance(&mut e, "b", "USDC")), before);
    assert_eq!(balance(&mut e, "a", "USDC"), (1000, 50));
}

#[test]
fn quote_leaves_depth_alone() {
    let mut e = Engine::new();
    e.process_at(create("2", OrderSide::Ask, 100, 10), s("a1"), 1).unwrap();
    e.process_at(create("2", OrderSide::Ask, 101, 12), s("a2"), 2).unwrap();
    e.process_at(create("1", OrderSide::Bid, 95, 3), s("b1"), 3).unwrap();
    let first = depth(&mut e);
    for _ in 0..3 {
        let msg = MessageFromApi::GetQuote {
            data: GetQuotePayload { market: s("SOL_USDC"), side: OrderSide::Bid, quantity: 15 },
        };
        e.process_at(msg, s("unused"), 4).unwrap();
    }
    assert_eq!(depth(&mut e), first);
}

#[test]
fn quote_reports_cost_and_average() {
    let mut e = Engine::new();
    e.process_at(create("2", OrderSide::Ask, 100, 10), s("a1"), 1).unwrap();
    e.process_at(create("2", OrderSide::Ask, 101, 12), s("a2"), 2).unwrap();
    let msg = MessageFromApi::GetQuote {
        data: GetQuotePayload { market: s("SOL_USDC"), side: OrderSide::Bid, quantity: 15 },
    };
    match e.process_at(msg, s("unused"), 3) {
        Ok((MessageToApi::Quote { payload }, _)) => {
            assert_eq!(payload.quantity, 15);
            assert_eq!(payload.filled_qty, 15);
            assert_eq!(payload.total_cost, 1505);
            // the average is the exact fraction 1505 / 15
            assert_eq!(payload.total_cost * 3, 301 * payload.filled_qty as u128);
        }
        other => panic!("unexpected answer {:?}", other),
    }
    // more than the book holds: only what can be had is priced
    let msg = MessageFromApi::GetQuote {
        data: GetQuotePayload { market: s("SOL_USDC"), side: OrderSide::Bid, quantity: 30 },
    };
    match e.process_at(msg, s("unused"), 3) {
        Ok((MessageToApi::Quote { payload }, _)) => {
            assert_eq!(payload.filled_qty, 22);
            assert_eq!(payload.total_cost, 2212);
        }
        other => panic!("unexpected answer {:?}", other),
    }
}

#[test]
fn quote_on_empty_side_is_zero() {
    let mut e = Engine::new();
    let msg = MessageFromApi::GetQuote {
        data: GetQuotePayload { market: s("SOL_USDC"), side: OrderSide::Ask, quantity: 5 },
    };
    match e.process_at(msg, s("unused"), 1) {
        Ok((MessageToApi::Quote { payload }, _)) => {
            assert_eq!((payload.filled_qty, payload.total_cost), (0, 0));
        }
        other => panic!("unexpected answer {:?}", other),
    }
}

#[test]
fn resting_orders_keep_price_time_priority() {
    let mut e = Engine::new();
    e.process_at(create("1", OrderSide::Bid, 10, 1), s("b1"), 5).unwrap();
    e.process_at(create("1", OrderSide::Bid, 12, 1), s("b2"), 6).unwrap();
    e.process_at(create("2", OrderSide::Bid, 10, 2), s("b3"), 7).unwrap();
    e.process_at(create("1", OrderSide::Bid, 11, 1), s("b4"), 8).unwrap();
    let ids: Vec<&str> = e.markets[0].book.bids.iter().map(|o| o.id.as_str()).collect();
    assert_eq!(ids, vec!["b2", "b4", "b1", "b3"]);
    let (bids, _) = depth(&mut e);
    assert_eq!(bids, vec![(12, 1), (11, 1), (10, 3)]);
    // a sell at 10 takes the best bid first, then the earlier order at 10
    e.process_at(create("2", OrderSide::Ask, 10, 3), s("s1"), 9).unwrap();
    let ids: Vec<&str> = e.markets[0].book.bids.iter().map(|o| o.id.as_str()).collect();
    assert_eq!(ids, vec!["b3"]);
}

#[test]
fn asks_sorted_ascending() {
    let mut e = Engine::new();
    e.process_at(create("2", OrderSide::Ask, 30, 1), s("x"), 1).unwrap();
    e.process_at(create("2", OrderSide::Ask, 20, 1), s("y"), 2).unwrap();
    e.process_at(create("2", OrderSide::Ask, 30, 1), s("z"), 3).unwrap();
    let ids: Vec<&str> = e.markets[0].book.asks.iter().map(|o| o.id.as_str()).collect();
    assert_eq!(ids, vec!["y", "x", "z"]);
}

#[test]
fn partial_fill_rests_remainder() {
    let mut e = Engine::new();
    e.process_at(create("2", OrderSide::Ask, 100, 4), s("a1"), 1).unwrap();
    let (_, filled, remaining, _) = placed(e.process_at(create("1", OrderSide::Bid, 100, 10), s("b1"), 2));
    assert_eq!((filled, remaining), (4, 6));
    let (bids, asks) = depth(&mut e);
    assert_eq!(bids, vec![(100, 6)]);
    assert!(asks.is_empty());
    assert_eq!(balance(&mut e, "1", "USDC"), (100_000_000 - 400, 600));
}

#[test]
fn non_crossing_orders_rest() {
    let mut e = Engine::new();
    e.process_at(create("2", OrderSide::Ask, 105, 4), s("a1"), 1).unwrap();
    let (_, filled, remaining, n) = placed(e.process_at(create("1", OrderSide::Bid, 100, 2), s("b1"), 2));
    assert_eq!((filled, remaining, n), (0, 2, 0));
}

#[test]
fn insufficient_balance_is_refused() {
    let mut e = engine_with(5, 100);
    let msg = cancelled_message(e.process_at(create("a", OrderSide::Ask, 10, 6), s("o1"), 1));
    assert_eq!(msg, "Insufficient balance for trade");
    let msg = cancelled_message(e.process_at(create("a", OrderSide::Bid, 11, 10), s("o2"), 1));
    assert_eq!(msg, "Insufficient balance for trade");
    assert_eq!(balance(&mut e, "a", "SOL"), (5, 0));
    assert_eq!(balance(&mut e, "a", "USDC"), (100, 0));
    // exactly the available amount is accepted
    placed(e.process_at(create("a", OrderSide::Bid, 10, 10), s("o3"), 1));
    assert_eq!(balance(&mut e, "a", "USDC"), (100, 100));
}

#[test]
fn unknown_market_is_answered() {
    let mut e = Engine::new();
    let msg = MessageFromApi::CreateOrder {
        data: CreateOrderPayload { user_id: s("1"), market: s("BTC_USDC"), price: 1, quantity: 1, side: OrderSide::Bid },
    };
    assert_eq!(cancelled_message(e.process_at(msg, s("x"), 1)), "Market not found");
    let msg = MessageFromApi::GetDepth { data: GetDepthPayload { market: s("BTC_USDC") } };
    assert_eq!(cancelled_message(e.process_at(msg, s("x"), 1)), "Market not found");
}

#[test]
fn unknown_user_is_an_error() {
    let mut e = Engine::new();
    let msg = MessageFromApi::GetUserBalances { data: GetUserBalancesPayload { user_id: s("9") } };
    assert!(matches!(e.process_at(msg, s("x"), 1), Err(EngineError::UnknownUser)));
}

#[test]
fn open_orders_lists_the_users_orders() {
    let mut e = Engine::new();
    e.process_at(create("1", OrderSide::Bid, 10, 1), s("b1"), 1).unwrap();
    e.process_at(create("2", OrderSide::Bid, 11, 1), s("b2"), 2).unwrap();
    e.process_at(create("1", OrderSide::Ask, 20, 1), s("a1"), 3).unwrap();
    let msg = MessageFromApi::GetOpenOrders {
        data: GetOpenOrdersPayload { user_id: s("1"), market: s("SOL_USDC") },
    };
    match e.process_at(msg, s("x"), 4) {
        Ok((MessageToApi::OpenOrders { payload }, _)) => {
            let ids: Vec<&str> = payload.orders.iter().map(|o| o.id.as_str()).collect();
            assert_eq!(ids, vec!["b1", "a1"]);
            assert_eq!(payload.user_id, "1");
        }
        other => panic!("unexpected answer {:?}", other),
    }
}

#[test]
fn market_creation_rules() {
    let mut e = Engine::new();
    assert_eq!(e.create_market(s("SOL"), s("USDC")), Err(EngineError::MarketExists));
    assert_eq!(e.create_market(s("SOL"), s("SOL")), Ok(()));
    assert_eq!(e.create_market(s("SOL"), s("SOL")), Err(EngineError::MarketExists));
    let msg = MessageFromApi::CreateMarket {
        data: CreateMarketPayload {
            name: s("BTC_USDC"),
            description: None,
            base_asset: s("BTC"),
            quote_asset: s("USDC"),
            start_time: 0,
            end_time: 1,
            status: Status::Ongoing,
        },
    };
    match e.process_at(msg, s("x"), 1) {
        Ok((MessageToApi::MarketCreated { payload }, _)) => assert_eq!(payload.message.unwrap(), "Market created"),
        other => panic!("unexpected answer {:?}", other),
    }
    assert_eq!(e.markets.len(), 3);
    assert_eq!(e.markets[2].name, "BTC_USDC");
}

#[test]
fn process_gives_fresh_ids() {
    let mut e = Engine::new();
    let (id1, _, _, _) = placed(e.process(create("1", OrderSide::Bid, 10, 1)));
    let (id2, _, _, _) = placed(e.process(create("1", OrderSide::Bid, 10, 1)));
    assert_eq!(id1.len(), 36);
    assert_ne!(id1, id2);
}

#[test]
fn unknown_user_cannot_place() {
    let mut e = Engine::new();
    let r = e.process_at(create("9", OrderSide::Bid, 10, 1), s("o1"), 1);
    assert!(matches!(r, Err(EngineError::UnknownUser)));
    let (bids, asks) = depth(&mut e);
    assert!(bids.is_empty() && asks.is_empty());
}

#[test]
fn self_trade_settles_to_no_change() {
    let mut e = engine_with(10, 1000);
    e.process_at(create("a", OrderSide::Ask, 20, 5), s("o1"), 1).unwrap();
    let (_, filled, remaining, _) = placed(e.process_at(create("a", OrderSide::Bid, 20, 5), s("o2"), 2));
    assert_eq!((filled, remaining), (5, 0));
    assert_eq!(balance(&mut e, "a", "SOL"), (10, 0));
    assert_eq!(balance(&mut e, "a", "USDC"), (1000, 0));
}

#[test]
fn sell_into_bids_fills_at_bid_prices() {
    let mut e = engine_with(100, 10_000);
    e.process_at(create("a", OrderSide::Bid, 12, 3), s("b1"), 1).unwrap();
    e.process_at(create("a", OrderSide::Bid, 11, 3), s("b2"), 2).unwrap();
    match e.process_at(create("b", OrderSide::Ask, 11, 4), s("s1"), 3) {
        Ok((_, fills)) => {
            let got: Vec<(u64, u64)> = fills.iter().map(|f| (f.price, f.quantity)).collect();
            assert_eq!(got, vec![(12, 3), (11, 1)]);
        }
        other => panic!("unexpected answer {:?}", other),
    }
    // seller received 3*12 + 1*11 = 47
    assert_eq!(balance(&mut e, "b", "USDC"), (10_047, 0));
    assert_eq!(balance(&mut e, "b", "SOL"), (96, 0));
    // buyer paid 47 and still escrows 2 * 11 for what is left of b2
    assert_eq!(balance(&mut e, "a", "USDC"), (10_000 - 47, 22));
    assert_eq!(balance(&mut e, "a", "SOL"), (104, 0));
}

#[test]
fn resting_id_cannot_be_placed_again() {
    let mut e = Engine::new();
    placed(e.process_at(create("1", OrderSide::Bid, 10, 2), s("dup"), 1));
    let msg = cancelled_message(e.process_at(create("2", OrderSide::Bid, 11, 3), s("dup"), 2));
    assert_eq!(msg, "Duplicate order id");
    let (bids, _) = depth(&mut e);
    assert_eq!(bids, vec![(10, 2)]);
    assert_eq!(balance(&mut e, "2", "USDC"), (100_000_000, 0));
}

#[test]
fn cancelling_twice_is_cancelling_once() {
    let mut e = Engine::new();
    e.process_at(create("1", OrderSide::Bid, 10, 2), s("o1"), 1).unwrap();
    e.process_at(create("1", OrderSide::Bid, 10, 3), s("o2"), 2).unwrap();
    assert_eq!(cancelled_message(e.process_at(cancel("1", "o1"), s("x"), 3)), "ORDER CANCELLED");
    let after_first = (depth(&mut e), balance(&mut e, "1", "USDC"));
    assert_eq!(cancelled_message(e.process_at(cancel("1", "o1"), s("x"), 4)), "Order not found");
    assert_eq!((depth(&mut e), balance(&mut e, "1", "USDC")), after_first);
    assert_eq!(after_first.1, (100_000_000, 30));
}

#[test]
fn market_of_one_asset_settles() {
    let mut e = Engine::empty();
    e.ledger.add_account(&s("a"), &s("X"), 100).unwrap();
    e.ledger.add_account(&s("b"), &s("X"), 100).unwrap();
    e.create_market(s("X"), s("X")).unwrap();
    let mk = |user: &str, side, price, quantity| MessageFromApi::CreateOrder {
        data: CreateOrderPayload { user_id: s(user), market: s("X_X"), price, quantity, side },
    };
    e.process_at(mk("a", OrderSide::Ask, 2, 10), s("o1"), 1).unwrap();
    match e.process_at(mk("b", OrderSide::Bid, 3, 10), s("o2"), 2) {
        Ok((MessageToApi::OrderPlaced { payload }, fills)) => {
            assert_eq!((payload.filled_qty, payload.remaining_qty), (10, 0));
            assert_eq!((fills[0].price, fills[0].quantity), (2, 10));
        }
        other => panic!("unexpected answer {:?}", other),
    }
    // a gave 10 units and received 2 * 10; b the other way round
    assert_eq!(balance(&mut e, "a", "X"), (110, 0));
    assert_eq!(balance(&mut e, "b", "X"), (90, 0));
    // one user trading with itself in such a market ends where it started
    e.process_at(mk("a", OrderSide::Ask, 5, 4), s("o3"), 3).unwrap();
    e.process_at(mk("a", OrderSide::Bid, 5, 4), s("o4"), 4).unwrap();
    assert_eq!(balance(&mut e, "a", "X"), (110, 0));
}

#[test]
fn clock_moving_back_keeps_time_priority() {
    let mut e = Engine::new();
    e.process_at(create("1", OrderSide::Bid, 10, 1), s("early"), 50).unwrap();
    e.process_at(create("2", OrderSide::Bid, 10, 1), s("late"), 20).unwrap();
    let ids: Vec<&str> = e.markets[0].book.bids.iter().map(|o| o.id.as_str()).collect();
    assert_eq!(ids, vec!["early", "late"]);
    assert_eq!(e.markets[0].book.bids[1].timestamp, 50);
}
