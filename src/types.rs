use vstd::prelude::*;

verus! {

/// Which side of the book an order stands on: a bid buys the base asset, an
/// ask sells it.
#[derive(Clone, Copy, Debug, PartialEq, Eq, Structural)]
pub enum OrderSide {
    Bid,
    Ask,
}

/// The listing status of a market.
#[derive(Clone, Copy, Debug, PartialEq, Eq, Structural)]
pub enum Status {
    Incoming,
    Ongoing,
}

impl Status {
    /// The lower-case name of the status.
    pub fn as_text(&self) -> (r: String)
        ensures
            r@ == status_text(*self),
    {
        match self {
            Status::Incoming => String::from_str("incoming"),
            Status::Ongoing => String::from_str("ongoing"),
        }
    }
}

pub open spec fn status_text(s: Status) -> Seq<char> {
    match s {
        Status::Incoming => "incoming"@,
        Status::Ongoing => "ongoing"@,
    }
}

/// A resting limit order. `quantity` is what is left of it; `timestamp` is
/// its admission time, the tie-break between orders at one price.
#[derive(Debug)]
pub struct Order {
    pub id: String,
    pub user_id: String,
    pub price: u64,
    pub quantity: u64,
    pub side: OrderSide,
    pub timestamp: i64,
}

impl Order {
    /// A copy of the order, field for field.
    pub fn duplicate(&self) -> (r: Order)
        ensures
            r == *self,
    {
        Order {
            id: self.id.clone(),
            user_id: self.user_id.clone(),
            price: self.price,
            quantity: self.quantity,
            side: self.side,
            timestamp: self.timestamp,
        }
    }
}

/// One match of an incoming order against a resting one: the resting
/// order's id and owner, the resting order's price, and the quantity traded.
#[derive(Debug)]
pub struct Fill {
    pub order_id: String,
    pub user_id: String,
    pub price: u64,
    pub quantity: u64,
}

/// A request to place a limit order.
#[derive(Debug)]
pub struct CreateOrderPayload {
    pub user_id: String,
    pub market: String,
    pub price: u64,
    pub quantity: u64,
    pub side: OrderSide,
}

/// A request to cancel a resting order.
#[derive(Debug)]
pub struct CancelOrderPayload {
    pub order_id: String,
    pub user_id: String,
    pub market: String,
}

#[derive(Debug)]
pub struct GetDepthPayload {
    pub market: String,
}

/// A request for the cost of taking `quantity` from the book.
#[derive(Debug)]
pub struct GetQuotePayload {
    pub market: String,
    pub side: OrderSide,
    pub quantity: u64,
}

#[derive(Debug)]
pub struct GetOpenOrdersPayload {
    pub user_id: String,
    pub market: String,
}

#[derive(Debug)]
pub struct GetUserBalancesPayload {
    pub user_id: String,
}

#[derive(Debug)]
pub struct OnRampPayload {
    pub user_id: String,
}

/// A request to open a market trading `base_asset` against `quote_asset`.
#[derive(Debug)]
pub struct CreateMarketPayload {
    pub name: String,
    pub description: Option<String>,
    pub base_asset: String,
    pub quote_asset: String,
    pub start_time: i64,
    pub end_time: i64,
    pub status: Status,
}

#[derive(Debug)]
pub struct GetTradesPayload {
    pub market: String,
}

#[derive(Debug)]
pub struct GetKlinePayload {
    pub market: String,
    pub interval: String,
    pub start_time: String,
    pub end_time: String,
}

/// The requests that the engine serves.
#[derive(Debug)]
pub enum MessageFromApi {
    CreateOrder { data: CreateOrderPayload },
    CancelOrder { data: CancelOrderPayload },
    GetDepth { data: GetDepthPayload },
    GetQuote { data: GetQuotePayload },
    GetOpenOrders { data: GetOpenOrdersPayload },
    GetUserBalances { data: GetUserBalancesPayload },
    CreateMarket { data: CreateMarketPayload },
}

#[derive(Debug)]
pub struct OrderPlacedPayload {
    pub order_id: String,
    pub remaining_qty: u64,
    pub filled_qty: u64,
}

#[derive(Debug)]
pub struct OrderCancelledPayload {
    pub message: Option<String>,
}

#[derive(Debug)]
pub struct MarketCreated {
    pub message: Option<String>,
}

/// The resting orders of one user in one market.
#[derive(Debug)]
pub struct OpenOrders {
    pub user_id: String,
    pub market: String,
    pub orders: Vec<Order>,
}

/// Resting quantity aggregated by price level: `(price, quantity)`, bids
/// best (highest) first, asks best (lowest) first.
#[derive(Debug)]
pub struct DepthPayload {
    pub bids: Vec<(u64, u128)>,
    pub asks: Vec<(u64, u128)>,
}

/// What one user holds of one asset: `balance` in all, of which `locked_balance`
/// is escrowed against open orders.
#[derive(Debug)]
pub struct Balance {
    pub ticker: String,
    pub balance: u64,
    pub locked_balance: u64,
}

#[derive(Debug)]
pub struct UserBalancesPayload {
    pub balances: Vec<Balance>,
}

/// A user and what they hold.
#[derive(Debug)]
pub struct User {
    pub id: String,
    pub balances: Vec<Balance>,
}

/// The estimated cost of taking `quantity` from one side of a book:
/// `filled_qty` of it can be had, for `total_cost` in all. The
/// volume-weighted average price is exactly `total_cost / filled_qty`, a
/// fraction that is left to the caller to divide in the precision it needs;
/// there is none when `filled_qty` is zero.
#[derive(Debug)]
pub struct QuotePayload {
    pub quantity: u64,
    pub filled_qty: u64,
    pub total_cost: u128,
}

/// The responses and events that the engine emits.
#[derive(Debug)]
pub enum MessageToApi {
    OrderPlaced { payload: OrderPlacedPayload },
    OrderCancelled { payload: OrderCancelledPayload },
    OpenOrders { payload: OpenOrders },
    Depth { payload: DepthPayload },
    UserBalances { payload: UserBalancesPayload },
    Quote { payload: QuotePayload },
    MarketCreated { payload: MarketCreated },
}

/// A client's request to join a publish/subscribe room.
#[derive(Debug)]
pub enum ClientMessage {
    Subscribe { payload: PayloadInfo },
}

#[derive(Debug)]
pub struct PayloadInfo {
    pub room: String,
    pub message: String,
}

#[derive(Debug)]
pub struct ServerMessage {
    pub message_type: String,
    pub room: String,
}

/// The rooms that one connected client has joined.
#[derive(Debug)]
pub struct UserSubscription {
    pub rooms: Vec<String>,
}

impl UserSubscription {
    /// A client that has joined no room.
    pub fn new() -> (r: Self)
        ensures
            r.rooms@.len() == 0,
    {
        UserSubscription { rooms: Vec::new() }
    }
}

} // verus!
