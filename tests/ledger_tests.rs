use orderbook_manager::ledger::{Ledger, LedgerError};
use orderbook_manager::orderbook::Orderbook;
use orderbook_manager::types::{Order, OrderSide, Status, UserSubscription};
use orderbook_manager::{sanitize_ticker, string_to_status};

fn s(x: &str) -> String {
    x.to_string()
}

fn order(id: &str, side: OrderSide, price: u64, quantity: u64, ts: i64) -> Order {
    Order { id: s(id), user_id: s("u"), price, quantity, side, timestamp: ts }
}

#[test]
fn account_rules() {
    let mut l = Ledger::new();
    assert_eq!(l.add_account(&s("a"), &s("SOL"), 10), Ok(()));
    assert_eq!(l.add_account(&s("a"), &s("SOL"), 10), Err(LedgerError::DuplicateAccount));
    assert_eq!(l.add_account(&s("b"), &s("SOL"), u64::MAX - 10), Ok(()));
    assert_eq!(l.add_account(&s("c"), &s("SOL"), 1), Err(LedgerError::SupplyOverflow));
    assert_eq!(l.total_supply(&s("SOL")), u64::MAX);
}

#[test]
fn lock_and_release() {
    let mut l = Ledger::new();
    l.add_account(&s("a"), &s("USDC"), 100).unwrap();
    assert!(l.try_lock(&s("a"), &s("USDC"), 60));
    assert!(!l.try_lock(&s("a"), &s("USDC"), 41));
    assert!(!l.try_lock(&s("z"), &s("USDC"), 0));
    assert_eq!(l.release_lock(&s("a"), &s("USDC"), 61), Err(LedgerError::LockedShortfall));
    assert_eq!(l.release_lock(&s("z"), &s("USDC"), 1), Err(LedgerError::UnknownAccount));
    assert_eq!(l.release_lock(&s("a"), &s("USDC"), 60), Ok(()));
    let b = l.user_balances(&s("a")).unwrap();
    assert_eq!((b[0].balance, b[0].locked_balance), (100, 0));
    assert!(l.user_balances(&s("z")).is_none());
}

#[test]
fn settle_moves_both_assets() {
    let mut l = Ledger::new();
    l.add_account(&s("buyer"), &s("USDC"), 1000).unwrap();
    l.add_account(&s("seller"), &s("SOL"), 10).unwrap();
    assert!(l.try_lock(&s("buyer"), &s("USDC"), 5 * 110));
    assert!(l.try_lock(&s("seller"), &s("SOL"), 5));
    assert_eq!(l.settle_fill(&s("buyer"), &s("seller"), &s("SOL"), &s("USDC"), 100, 5, 110), Ok(()));
    let b = l.user_balances(&s("buyer")).unwrap();
    assert_eq!((b[0].ticker.as_str(), b[0].balance, b[0].locked_balance), ("USDC", 500, 0));
    assert_eq!((b[1].ticker.as_str(), b[1].balance, b[1].locked_balance), ("SOL", 5, 0));
    let v = l.user_balances(&s("seller")).unwrap();
    assert_eq!((v[0].balance, v[0].locked_balance), (5, 0));
    assert_eq!((v[1].ticker.as_str(), v[1].balance), ("USDC", 500));
    // nothing left in escrow: a second settlement is refused and changes nothing
    assert_eq!(
        l.settle_fill(&s("buyer"), &s("seller"), &s("SOL"), &s("USDC"), 100, 5, 110),
        Err(LedgerError::LockedShortfall)
    );
    assert_eq!(
        l.settle_fill(&s("nobody"), &s("seller"), &s("SOL"), &s("USDC"), 100, 5, 110),
        Err(LedgerError::UnknownAccount)
    );
}

#[test]
fn book_cancel_finds_either_side() {
    let mut b = Orderbook::new(s("SOL"), s("USDC"));
    b.insert_order(order("x", OrderSide::Ask, 20, 1, 1));
    b.insert_order(order("y", OrderSide::Bid, 10, 1, 2));
    assert!(b.has_order(&s("x")) && b.has_order(&s("y")));
    let o = b.cancel(&s("y")).unwrap();
    assert_eq!(o.side, OrderSide::Bid);
    assert!(b.bids.is_empty());
    let o = b.cancel(&s("x")).unwrap();
    assert_eq!(o.side, OrderSide::Ask);
    assert!(b.asks.is_empty());
    assert!(b.cancel(&s("x")).is_none());
    assert!(!b.has_order(&s("x")));
}

#[test]
fn book_fill_orders_walk() {
    let mut b = Orderbook::new(s("SOL"), s("USDC"));
    b.insert_order(order("a1", OrderSide::Ask, 100, 10, 1));
    b.insert_order(order("a2", OrderSide::Ask, 101, 12, 2));
    let (fills, rem) = b.fill_orders(&order("t", OrderSide::Bid, 101, 15, 3));
    assert_eq!(rem, 0);
    assert_eq!(fills.len(), 2);
    assert_eq!((b.asks[0].id.as_str(), b.asks[0].quantity), ("a2", 7));
    let d = b.get_depth();
    assert_eq!(d.asks, vec![(101, 7)]);
    let q = b.get_quote_detail(3, OrderSide::Bid);
    assert_eq!((q.filled_qty, q.total_cost), (3, 303));
}

#[test]
fn ticker_is_sanitized() {
    assert_eq!(sanitize_ticker("SOL-USDC"), "sol_usdc");
    assert_eq!(sanitize_ticker("Sol_Usdc 1"), "sol_usdc_1");
    assert_eq!(sanitize_ticker(""), "");
}

#[test]
fn status_from_text() {
    assert_eq!(string_to_status(&Some(s("Ongoing"))), Status::Ongoing);
    assert_eq!(string_to_status(&Some(s("ongoing"))), Status::Incoming);
    assert_eq!(string_to_status(&None), Status::Incoming);
    assert_eq!(Status::Ongoing.as_text(), "ongoing");
    assert_eq!(Status::Incoming.as_text(), "incoming");
}

#[test]
fn new_subscription_is_empty() {
    assert!(UserSubscription::new().rooms.is_empty());
}
