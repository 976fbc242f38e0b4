use vstd::prelude::*;
use crate::clock::{new_order_id, now_timestamp};
use crate::escrow::{escrow_backed, escrow_sum, locked_in, markets_escrow};
use crate::ledger::{balances_of, AccountKey, Ledger, LedgerError};
use crate::orderbook::{level_view, levels, opposite, owned_by, quote_walk, Orderbook};
use crate::types::{
    Fill, MarketCreated, MessageFromApi, MessageToApi, OpenOrders, OrderCancelledPayload, UserBalancesPayload,
};
use crate::worker::{
    cancel_order_done, create_order_done, handle_cancel_order, handle_create_order, handle_get_depth,
    handle_get_open_orders, handle_get_quote, market_wf,
};

verus! {

/// Why the engine refused a request.
#[derive(Clone, Copy, Debug, PartialEq, Eq, Structural)]
pub enum EngineError {
    /// A market with that name exists already.
    MarketExists,
    /// The user holds no account.
    UnknownUser,
    /// The ledger's escrow records are corrupt; nothing more can be trusted.
    Ledger(LedgerError),
}

/// The name of the market trading `base` against `quote`: `BASE_QUOTE`.
pub open spec fn market_name(base: Seq<char>, quote: Seq<char>) -> Seq<char> {
    base + "_"@ + quote
}

pub open spec fn not_found_market_text() -> Seq<char> {
    "Market not found"@
}

pub open spec fn market_created_text() -> Seq<char> {
    "Market created"@
}

/// The outcome of serving `message` on engine `e0` with `order_id` and
/// `timestamp` at hand, leaving `e1` and answering `r`.
pub open spec fn process_outcome(
    e0: Engine,
    message: MessageFromApi,
    order_id: String,
    timestamp: i64,
    e1: Engine,
    r: Result<(MessageToApi, Vec<Fill>), EngineError>,
) -> bool {
    match message {
        MessageFromApi::CreateOrder { data } => match market_index(e0.markets@, data.market@) {
            None => is_market_not_found(r) && e1 == e0,
            Some(i) => if !e0.ledger.has_user(data.user_id@) {
                r == Err::<(MessageToApi, Vec<Fill>), EngineError>(EngineError::UnknownUser) && e1 == e0
            } else {
                &&& e1.others_kept(&e0, i)
                &&& (r is Err ==> r matches Err(EngineError::Ledger(_)))
                &&& create_order_done(
                    e0.markets@[i].book,
                    e0.ledger,
                    data,
                    order_id,
                    timestamp,
                    e1.markets@[i].book,
                    e1.ledger,
                    as_order_result(r),
                )
            },
        },
        MessageFromApi::CancelOrder { data } => match market_index(e0.markets@, data.market@) {
            None => is_market_not_found(r) && e1 == e0,
            Some(i) => {
                &&& e1.others_kept(&e0, i)
                &&& (r is Err ==> r matches Err(EngineError::Ledger(_)))
                &&& (r matches Ok((_, fs)) ==> fs@.len() == 0)
                &&& cancel_order_done(
                    e0.markets@[i].book,
                    e0.ledger,
                    data,
                    e1.markets@[i].book,
                    e1.ledger,
                    as_cancel_result(r),
                )
            },
        },
        MessageFromApi::GetDepth { data } => e1 == e0 && match market_index(
            e0.markets@,
            data.market@,
        ) {
            None => is_market_not_found(r),
            Some(i) => r matches Ok((MessageToApi::Depth { payload: d }, fs)) && fs@.len() == 0 && level_view(
                d.bids@,
            ) == levels(e0.markets@[i].book.bids@) && level_view(d.asks@) == levels(
                e0.markets@[i].book.asks@,
            ),
        },
        MessageFromApi::GetQuote { data } => e1 == e0 && match market_index(
            e0.markets@,
            data.market@,
        ) {
            None => is_market_not_found(r),
            Some(i) => {
                let w = quote_walk(e0.markets@[i].book.side_view(opposite(data.side)), data.quantity as int);
                r matches Ok((MessageToApi::Quote { payload: q }, fs)) && fs@.len() == 0 && q.quantity
                    == data.quantity && q.filled_qty == w.0 && q.total_cost == w.1
            },
        },
        MessageFromApi::GetOpenOrders { data } => e1 == e0 && match market_index(
            e0.markets@,
            data.market@,
        ) {
            None => is_market_not_found(r),
            Some(i) => r matches Ok((MessageToApi::OpenOrders { payload: o }, fs)) && fs@.len() == 0
                && o.user_id == data.user_id && o.market == data.market && o.orders@ == owned_by(
                e0.markets@[i].book.bids@,
                data.user_id@,
            ) + owned_by(e0.markets@[i].book.asks@, data.user_id@),
        },
        MessageFromApi::GetUserBalances { data } => {
            &&& e1 == e0
            &&& (forall|i: int|
                0 <= i < e0.ledger.entries@.len() ==> #[trigger] e0.ledger.entries@[i].user_id@
                    != data.user_id@) ==> r == Err::<(MessageToApi, Vec<Fill>), EngineError>(
                EngineError::UnknownUser,
            )
            &&& (exists|i: int|
                0 <= i < e0.ledger.entries@.len() && #[trigger] e0.ledger.entries@[i].user_id@
                    == data.user_id@) ==> (r matches Ok((MessageToApi::UserBalances { payload: b }, fs))
                && fs@.len() == 0 && b.balances@ == balances_of(e0.ledger.entries@, data.user_id@))
        },
        MessageFromApi::CreateMarket { data } => {
            &&& e1.ledger == e0.ledger
            &&& market_index(
                e0.markets@,
                market_name(data.base_asset@, data.quote_asset@),
            ) is Some ==> r == Err::<(MessageToApi, Vec<Fill>), EngineError>(EngineError::MarketExists)
            &&& market_index(
                e0.markets@,
                market_name(data.base_asset@, data.quote_asset@),
            ) is None ==> ({
                &&& r matches Ok((MessageToApi::MarketCreated { payload: c }, fs))
                &&& c.message matches Some(m) && m@ == market_created_text()
                &&& fs@.len() == 0
                &&& e1.markets@.len() == e0.markets@.len() + 1
                &&& e1.markets@.subrange(0, e0.markets@.len() as int) == e0.markets@
                &&& e1.markets@.last().name@ == market_name(data.base_asset@, data.quote_asset@)
                &&& e1.markets@.last().book.base_asset == data.base_asset
                &&& e1.markets@.last().book.quote_asset == data.quote_asset
                &&& e1.markets@.last().book.bids@.len() == 0
                &&& e1.markets@.last().book.asks@.len() == 0
            })
            &&& r is Err ==> e1.markets@ == e0.markets@
        },
    }
}

/// A market and its order book.
#[derive(Debug)]
pub struct MarketBook {
    pub name: String,
    pub book: Orderbook,
}

/// The position of the market named `name`, if there is one.
pub open spec fn market_index(m: Seq<MarketBook>, name: Seq<char>) -> Option<int> {
    if exists|i: int| 0 <= i < m.len() && m[i].name@ == name {
        Some(choose|i: int| 0 <= i < m.len() && m[i].name@ == name)
    } else {
        None
    }
}

/// A market request's result seen as the result of the market's handler.
pub open spec fn as_order_result(r: Result<(MessageToApi, Vec<Fill>), EngineError>) -> Result<
    (MessageToApi, Vec<Fill>),
    LedgerError,
> {
    match r {
        Ok(x) => Ok(x),
        Err(EngineError::Ledger(e)) => Err(e),
        Err(_) => Err(LedgerError::LockedShortfall),
    }
}

pub open spec fn as_cancel_result(r: Result<(MessageToApi, Vec<Fill>), EngineError>) -> Result<MessageToApi, LedgerError> {
    match r {
        Ok(x) => Ok(x.0),
        Err(EngineError::Ledger(e)) => Err(e),
        Err(_) => Err(LedgerError::LockedShortfall),
    }
}

/// The "market not found" answer, with no fills.
pub open spec fn is_market_not_found(r: Result<(MessageToApi, Vec<Fill>), EngineError>) -> bool {
    &&& r matches Ok((MessageToApi::OrderCancelled { payload: c }, fs))
    &&& c.message matches Some(m) && m@ == not_found_market_text()
    &&& fs@.len() == 0
}

/// The engine: every market's book and the ledger that they share.
#[derive(Debug)]
pub struct Engine {
    pub markets: Vec<MarketBook>,
    pub ledger: Ledger,
}

impl Engine {
    /// Each market's book is well-formed and is named after its assets; no two markets share a name; the ledger is
    /// well-formed.
    pub open spec fn wf(&self) -> bool {
        &&& self.ledger.wf()
        &&& forall|i: int|
            0 <= i < self.markets@.len() ==> {
                &&& market_wf(&(#[trigger] self.markets@[i]).book, &self.ledger)
                &&& self.markets@[i].name@ == market_name(
                    self.markets@[i].book.base_asset@,
                    self.markets@[i].book.quote_asset@,
                )
            }
        &&& forall|i: int, j: int|
            0 <= i < self.markets@.len() && 0 <= j < self.markets@.len() && #[trigger] self.markets@[i].name@
                == #[trigger] self.markets@[j].name@ ==> i == j
    }

    /// An engine with no market and an empty ledger.
    pub fn empty() -> (r: Self)
        ensures
            r.wf(),
            r.markets@.len() == 0,
            r.ledger.view() == Map::<AccountKey, (u64, u64)>::empty(),
            forall|t: Seq<char>| #[trigger] r.ledger.supply(t) == 0,
    {
        Engine { markets: Vec::new(), ledger: Ledger::new() }
    }

    fn find_market(&self, name: &String) -> (r: Option<usize>)
        requires
            self.wf(),
        ensures
            match r {
                Some(i) => i < self.markets@.len() && market_index(self.markets@, name@) == Some(i as int),
                None => market_index(self.markets@, name@) is None,
            },
    {
        let mut i: usize = 0;
        while i < self.markets.len()
            invariant
                self.wf(),
                i <= self.markets@.len(),
                forall|k: int| 0 <= k < i ==> (#[trigger] self.markets@[k]).name@ != name@,
            decreases self.markets@.len() - i,
        {
            if self.markets[i].name == *name {
                proof {
                    let c = choose|j: int| 0 <= j < self.markets@.len() && self.markets@[j].name@ == name@;
                    assert(0 <= c < self.markets@.len() && self.markets@[c].name@ == name@);
                    assert(self.markets@[c].name@ == self.markets@[i as int].name@);
                    assert(c == i);
                }
                return Some(i);
            }
            i = i + 1;
        }
        None
    }

    /// Opens the market `BASE_QUOTE` with an empty book. Refused when a
    /// market of that name exists.
    pub fn create_market(&mut self, base_asset: String, quote_asset: String) -> (r: Result<(), EngineError>)
        requires
            old(self).wf(),
        ensures
            final(self).wf(),
            final(self).ledger == old(self).ledger,
            market_index(old(self).markets@, market_name(base_asset@, quote_asset@)) is Some
                ==> r == Err::<(), EngineError>(EngineError::MarketExists),
            market_index(old(self).markets@, market_name(base_asset@, quote_asset@)) is None ==> r is Ok,
            r is Err ==> final(self).markets@ == old(self).markets@,
            r is Ok ==> {
                &&& final(self).markets@.len() == old(self).markets@.len() + 1
                &&& final(self).markets@.subrange(0, old(self).markets@.len() as int) == old(self).markets@
                &&& final(self).markets@.last().name@ == market_name(base_asset@, quote_asset@)
                &&& final(self).markets@.last().book.base_asset == base_asset
                &&& final(self).markets@.last().book.quote_asset == quote_asset
                &&& final(self).markets@.last().book.bids@.len() == 0
                &&& final(self).markets@.last().book.asks@.len() == 0
            },
    {
        let mut name = base_asset.clone();
        name.append("_");
        name.append(quote_asset.as_str());
        if self.find_market(&name).is_some() {
            return Err(EngineError::MarketExists);
        }
        let ghost old_markets = self.markets@;
        let book = Orderbook::new(base_asset, quote_asset);
        self.markets.push(MarketBook { name, book });
        proof {
            let m = self.markets@;
            assert(m.subrange(0, old_markets.len() as int) =~= old_markets);
            assert forall|i: int, j: int|
                0 <= i < m.len() && 0 <= j < m.len() && #[trigger] m[i].name@ == #[trigger] m[j].name@ implies i == j by {
                if i < old_markets.len() && j < old_markets.len() {
                    assert(m[i] == old_markets[i] && m[j] == old_markets[j]);
                } else if i < old_markets.len() {
                    assert(m[i] == old_markets[i]);
                    assert(0 <= i < old_markets.len() && old_markets[i].name@ == m[j].name@);
                } else if j < old_markets.len() {
                    assert(m[j] == old_markets[j]);
                    assert(0 <= j < old_markets.len() && old_markets[j].name@ == m[i].name@);
                }
            }
            assert forall|i: int| 0 <= i < m.len() implies {
                &&& market_wf(&(#[trigger] m[i]).book, &self.ledger)
                &&& m[i].name@ == market_name(m[i].book.base_asset@, m[i].book.quote_asset@)
            } by {
                if i < old_markets.len() {
                    assert(m[i] == old_markets[i]);
                }
            }
        }
        Ok(())
    }

    /// The engine as it starts: users "1" and "2" each hold 100,000,000 of
    /// SOL and of USDC, and the market SOL_USDC is open.
    pub fn new() -> (r: Self)
        ensures
            r.wf(),
            r.markets@.len() == 1,
            r.markets@[0].name@ == "SOL_USDC"@,
            r.markets@[0].book.bids@.len() == 0,
            r.markets@[0].book.asks@.len() == 0,
            escrow_backed(r),
            r.ledger.view() == Map::<AccountKey, (u64, u64)>::empty().insert(
                ("1"@, "USDC"@),
                (100_000_000u64, 0u64),
            ).insert(("1"@, "SOL"@), (100_000_000u64, 0u64)).insert(("2"@, "USDC"@), (100_000_000u64, 0u64)).insert(
                ("2"@, "SOL"@),
                (100_000_000u64, 0u64),
            ),
    {
        let mut e = Engine::empty();
        let one = String::from_str("1");
        let two = String::from_str("2");
        let usdc = String::from_str("USDC");
        let sol = String::from_str("SOL");
        proof {
            reveal_strlit("1");
            reveal_strlit("2");
            reveal_strlit("USDC");
            reveal_strlit("SOL");
            reveal_strlit("SOL_USDC");
            reveal_strlit("_");
            assert(one@[0] != two@[0]);
            assert(usdc@.len() != sol@.len());
        }
        assert(e.ledger.supply(usdc@) == 0 && e.ledger.supply(sol@) == 0);
        let r1 = e.ledger.add_account(&one, &usdc, 100_000_000);
        assert(r1 is Ok);
        assert(e.ledger.supply(sol@) == 0);
        let r2 = e.ledger.add_account(&one, &sol, 100_000_000);
        assert(r2 is Ok);
        assert(e.ledger.supply(usdc@) == 100_000_000);
        let r3 = e.ledger.add_account(&two, &usdc, 100_000_000);
        assert(r3 is Ok);
        assert(e.ledger.supply(sol@) == 100_000_000);
        let r4 = e.ledger.add_account(&two, &sol, 100_000_000);
        assert(r4 is Ok);
        let rm = e.create_market(sol, usdc);
        assert(rm is Ok);
        assert(market_name("SOL"@, "USDC"@) =~= "SOL_USDC"@);
        proof {
            let b = e.markets@[0].book;
            assert(e.markets@.drop_last() =~= Seq::<MarketBook>::empty());
            assert forall|k: AccountKey| #[trigger] locked_in(e.ledger.view(), k)
                == markets_escrow(e.markets@, k) by {
                assert(escrow_sum(b.bids@, b.base_asset@, b.quote_asset@, k) == 0);
                assert(escrow_sum(b.asks@, b.base_asset@, b.quote_asset@, k) == 0);
                assert(markets_escrow(e.markets@.drop_last(), k) == 0);
                let v = e.ledger.view();
                if v.contains_key(k) {
                    assert(v[k].1 == 0);
                }
                assert(locked_in(v, k) == 0);
            }
        }
        e
    }

    /// Serves one request (see `process_at`), giving a placed order a fresh
    /// random id and the current time.
    pub fn process(&mut self, message: MessageFromApi) -> (r: Result<(MessageToApi, Vec<Fill>), EngineError>)
        requires
            old(self).wf(),
        ensures
            final(self).wf(),
            exists|order_id: String, timestamp: i64| order_id@.len() == 36 && #[trigger] process_outcome(*old(self), message, order_id, timestamp, *final(self), r),
    {
        let order_id = new_order_id();
        let timestamp = now_timestamp();
        let ghost prev = *self;
        let ghost msg = message;
        let ghost id = order_id;
        let r = self.process_at(message, order_id, timestamp);
        assert(process_outcome(prev, msg, id, timestamp, *self, r));
        r
    }

    /// Every market but the one at `i` is as it was, and that one keeps its name.
    pub open spec fn others_kept(&self, prev: &Engine, i: int) -> bool {
        &&& self.markets@.len() == prev.markets@.len()
        &&& forall|j: int| 0 <= j < self.markets@.len() && j != i ==> #[trigger] self.markets@[j] == prev.markets@[j]
        &&& self.markets@[i].name == prev.markets@[i].name
    }

    /// Serves one request, with `order_id` and `timestamp` for the order that
    /// a placement may rest. Requests on a market go to that market's
    /// handler, or are answered "Market not found"; a balance request is
    /// answered from the ledger; a market request opens the market.
    pub fn process_at(&mut self, message: MessageFromApi, order_id: String, timestamp: i64) -> (r: Result<
        (MessageToApi, Vec<Fill>),
        EngineError,
    >)
        requires
            old(self).wf(),
        ensures
            final(self).wf(),
            process_outcome(*old(self), message, order_id, timestamp, *final(self), r),
    {
        match message {
            MessageFromApi::CreateOrder { data } => match self.find_market(&data.market) {
                None => Ok((not_found_answer(), Vec::new())),
                Some(_) if !self.ledger.knows_user(&data.user_id) => Err(EngineError::UnknownUser),
                Some(i) => {
                    let ghost prev = *self;
                    let mut m = self.markets.remove(i);
                    proof {
                        assert(m == prev.markets@[i as int]);
                    }
                    let res = handle_create_order(&mut m.book, &mut self.ledger, &data, order_id, timestamp);
                    self.markets.insert(i, m);
                    proof { self.lemma_one_market_changed(&prev, i as int); }
                    match res {
                        Ok(x) => Ok(x),
                        Err(e) => Err(EngineError::Ledger(e)),
                    }
                },
            },
            MessageFromApi::CancelOrder { data } => match self.find_market(&data.market) {
                None => Ok((not_found_answer(), Vec::new())),
                Some(i) => {
                    let ghost prev = *self;
                    let mut m = self.markets.remove(i);
                    proof {
                        assert(m == prev.markets@[i as int]);
                    }
                    let res = handle_cancel_order(&mut m.book, &mut self.ledger, &data);
                    self.markets.insert(i, m);
                    proof { self.lemma_one_market_changed(&prev, i as int); }
                    match res {
                        Ok(x) => Ok((x, Vec::new())),
                        Err(e) => Err(EngineError::Ledger(e)),
                    }
                },
            },
            MessageFromApi::GetDepth { data } => match self.find_market(&data.market) {
                None => Ok((not_found_answer(), Vec::new())),
                Some(i) => Ok((handle_get_depth(&self.markets[i].book), Vec::new())),
            },
            MessageFromApi::GetQuote { data } => match self.find_market(&data.market) {
                None => Ok((not_found_answer(), Vec::new())),
                Some(i) => Ok((handle_get_quote(&self.markets[i].book, data.quantity, data.side), Vec::new())),
            },
            MessageFromApi::GetOpenOrders { data } => match self.find_market(&data.market) {
                None => Ok((not_found_answer(), Vec::new())),
                Some(i) => Ok((handle_get_open_orders(&self.markets[i].book, &data), Vec::new())),
            },
            MessageFromApi::GetUserBalances { data } => match self.ledger.user_balances(&data.user_id) {
                None => Err(EngineError::UnknownUser),
                Some(balances) => Ok((MessageToApi::UserBalances { payload: UserBalancesPayload { balances } }, Vec::new())),
            },
            MessageFromApi::CreateMarket { data } => match self.create_market(data.base_asset, data.quote_asset) {
                Ok(()) => Ok(
                    (
                        MessageToApi::MarketCreated {
                            payload: MarketCreated { message: Some(String::from_str("Market created")) },
                        },
                        Vec::new(),
                    ),
                ),
                Err(e) => Err(e),
            },
        }
    }

    /// After one market's handler has run, the engine is well-formed again.
    proof fn lemma_one_market_changed(&self, prev: &Engine, i: int)
        requires
            prev.wf(),
            0 <= i < prev.markets@.len(),
            self.others_kept(prev, i),
            market_wf(&self.markets@[i].book, &self.ledger),
            self.markets@[i].book.base_asset == prev.markets@[i].book.base_asset,
            self.markets@[i].book.quote_asset == prev.markets@[i].book.quote_asset,
            forall|j: int| 0 <= j < prev.markets@.len() ==> market_wf(&(#[trigger] prev.markets@[j]).book, &self.ledger),
        ensures
            self.wf(),
    {
        assert forall|a: int, b: int|
            0 <= a < self.markets@.len() && 0 <= b < self.markets@.len() && #[trigger] self.markets@[a].name@
                == #[trigger] self.markets@[b].name@ implies a == b by {
            assert(self.markets@[a].name == prev.markets@[a].name);
            assert(self.markets@[b].name == prev.markets@[b].name);
            assert(prev.markets@[a].name@ == prev.markets@[b].name@);
        }
        assert forall|j: int| 0 <= j < self.markets@.len() implies {
            &&& market_wf(&(#[trigger] self.markets@[j]).book, &self.ledger)
            &&& self.markets@[j].name@ == market_name(self.markets@[j].book.base_asset@, self.markets@[j].book.quote_asset@)
        } by {
            if j != i {
                assert(self.markets@[j] == prev.markets@[j]);
            }
            assert(prev.markets@[j].name@ == market_name(prev.markets@[j].book.base_asset@, prev.markets@[j].book.quote_asset@));
        }
    }
}

fn not_found_answer() -> (r: MessageToApi)
    ensures
        r matches MessageToApi::OrderCancelled { payload: c } && c.message matches Some(m) && m@ == not_found_market_text(),
{
    MessageToApi::OrderCancelled { payload: OrderCancelledPayload { message: Some(String::from_str("Market not found")) } }
}

} // verus!