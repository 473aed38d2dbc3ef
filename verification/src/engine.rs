//! The matching engine: a registry mapping trading pairs to order books.

use vstd::prelude::*;
use vstd::string::StringExecFns;

use crate::orderbook::{Order, OrderBook, Price, price_from_units};

verus! {

/// A base/quote asset pair identifying one market, e.g. "BTC/USD".
#[derive(Debug, Clone, PartialEq, Eq, Hash)]
pub struct TradingPair {
    pub base: String,
    pub quote: String,
}

/// Two trading pairs name the same market: same base and quote assets.
pub open spec fn pair_eq(a: TradingPair, b: TradingPair) -> bool {
    a.base@ == b.base@ && a.quote@ == b.quote@
}

impl TradingPair {
    pub fn new(base: String, quote: String) -> (p: TradingPair)
        ensures
            p.base == base,
            p.quote == quote,
    {
        TradingPair { base, quote }
    }

    /// The canonical display form "base/quote".
    pub fn to_string(&self) -> (s: String)
        ensures
            s@ == self.base@ + "/"@ + self.quote@,
    {
        let mut s = self.base.clone();
        s.append("/");
        s.append(self.quote.as_str());
        s
    }

    /// Whether this pair names the same market as `other`.
    pub fn matches(&self, other: &TradingPair) -> (r: bool)
        ensures
            r == pair_eq(*self, *other),
    {
        self.base == other.base && self.quote == other.quote
    }
}

/// Some registered market is named by this pair.
pub open spec fn has_market(books: Seq<(TradingPair, OrderBook)>, pair: TradingPair) -> bool {
    exists|i: int| 0 <= i < books.len() && pair_eq((#[trigger] books[i]).0, pair)
}

/// The registry is unchanged except that the market at position `i` was
/// reset to an empty order book; its registered pair is kept.
pub open spec fn market_replaced_at(
    old_books: Seq<(TradingPair, OrderBook)>,
    new_books: Seq<(TradingPair, OrderBook)>,
    i: int,
) -> bool {
    &&& 0 <= i < old_books.len()
    &&& new_books.len() == old_books.len()
    &&& new_books[i].0 == old_books[i].0
    &&& new_books[i].1.asks@.len() == 0
    &&& new_books[i].1.bids@.len() == 0
    &&& forall|j: int|
        0 <= j < old_books.len() && j != i ==> #[trigger] new_books[j] == old_books[j]
}

/// The registry gained one market, `pair` with an empty order book, at the
/// end; everything else is untouched.
pub open spec fn market_appended(
    old_books: Seq<(TradingPair, OrderBook)>,
    new_books: Seq<(TradingPair, OrderBook)>,
    pair: TradingPair,
) -> bool {
    &&& new_books.len() == old_books.len() + 1
    &&& forall|j: int| 0 <= j < old_books.len() ==> #[trigger] new_books[j] == old_books[j]
    &&& new_books[old_books.len() as int].0 == pair
    &&& new_books[old_books.len() as int].1.asks@.len() == 0
    &&& new_books[old_books.len() as int].1.bids@.len() == 0
}

/// The registry is unchanged except that `order` was posted at `price`
/// into the book at position `i`; the registered pair is kept.
pub open spec fn order_placed_at(
    old_books: Seq<(TradingPair, OrderBook)>,
    new_books: Seq<(TradingPair, OrderBook)>,
    i: int,
    price: Price,
    order: Order,
) -> bool {
    &&& 0 <= i < old_books.len()
    &&& new_books.len() == old_books.len()
    &&& new_books[i].0 == old_books[i].0
    &&& old_books[i].1.after_add(new_books[i].1, price, order)
    &&& forall|j: int|
        0 <= j < old_books.len() && j != i ==> #[trigger] new_books[j] == old_books[j]
}

/// The registry: each explicitly registered trading pair owns exactly one
/// order book. A pair must be registered before orders can be placed
/// against it.
#[derive(Debug)]
pub struct MatchingEngine {
    pub orderbooks: Vec<(TradingPair, OrderBook)>,
}

impl MatchingEngine {
    /// The registry's invariant: pairs are distinct and every book is well
    /// formed.
    pub open spec fn wf(&self) -> bool {
        &&& forall|i: int, j: int|
            0 <= i < j < self.orderbooks@.len() ==> !pair_eq(
                (#[trigger] self.orderbooks@[i]).0,
                (#[trigger] self.orderbooks@[j]).0,
            )
        &&& forall|i: int|
            0 <= i < self.orderbooks@.len() ==> (#[trigger] self.orderbooks@[i]).1.wf()
    }

    pub fn new() -> (engine: MatchingEngine)
        ensures
            engine.wf(),
            engine.orderbooks@.len() == 0,
    {
        MatchingEngine { orderbooks: Vec::new() }
    }

    /// Registers `trading_pair` with a fresh empty order book. A pair that
    /// is already registered has its existing book silently replaced by an
    /// empty one.
    pub fn add_new_market(&mut self, trading_pair: TradingPair)
        requires
            old(self).wf(),
        ensures
            final(self).wf(),
            has_market(final(self).orderbooks@, trading_pair),
            has_market(old(self).orderbooks@, trading_pair) ==> exists|i: int|
                #[trigger] market_replaced_at(old(self).orderbooks@, final(self).orderbooks@, i)
                    && pair_eq(old(self).orderbooks@[i].0, trading_pair),
            !has_market(old(self).orderbooks@, trading_pair) ==> market_appended(
                old(self).orderbooks@,
                final(self).orderbooks@,
                trading_pair,
            ),
    {
        let ghost orig = self.orderbooks@;
        match self.find_market(&trading_pair) {
            Some(i) => {
                let entry = vstd::std_specs::vec::vec_index_mut(&mut self.orderbooks, i);
                entry.1 = OrderBook::new();
                proof {
                    assert(market_replaced_at(orig, self.orderbooks@, i as int));
                    assert(pair_eq(self.orderbooks@[i as int].0, trading_pair));
                }
            },
            None => {
                self.orderbooks.push((trading_pair, OrderBook::new()));
                proof {
                    assert(pair_eq(self.orderbooks@[orig.len() as int].0, trading_pair));
                }
            },
        }
    }

    /// Routes a limit-order placement to the book registered for
    /// `trading_pair`: posting always succeeds on a registered market,
    /// and an unregistered market is reported without touching any book.
    pub fn place_limit_order(&mut self, trading_pair: TradingPair, price: u64, order: Order) -> (r:
        Result<(), String>)
        requires
            old(self).wf(),
        ensures
            final(self).wf(),
            has_market(old(self).orderbooks@, trading_pair) ==> r is Ok && exists|i: int|
                #[trigger] order_placed_at(
                    old(self).orderbooks@,
                    final(self).orderbooks@,
                    i,
                    price_from_units(price),
                    order,
                ) && pair_eq(old(self).orderbooks@[i].0, trading_pair),
            !has_market(old(self).orderbooks@, trading_pair) ==> {
                &&& *final(self) == *old(self)
                &&& r matches Err(m) && m@ == "Market not found: "@ + trading_pair.base@ + "/"@
                    + trading_pair.quote@
            },
    {
        let ghost orig = self.orderbooks@;
        match self.find_market(&trading_pair) {
            Some(i) => {
                let entry = vstd::std_specs::vec::vec_index_mut(&mut self.orderbooks, i);
                entry.1.add_limit_order(price, order);
                proof {
                    assert(order_placed_at(
                        orig,
                        self.orderbooks@,
                        i as int,
                        price_from_units(price),
                        order,
                    ));
                }
                Ok(())
            },
            None => {
                let mut msg = "Market not found: ".to_owned();
                let pair_name = trading_pair.to_string();
                msg.append(pair_name.as_str());
                Err(msg)
            },
        }
    }

    /// The position of the market registered for `pair`, if any.
    fn find_market(&self, pair: &TradingPair) -> (r: Option<usize>)
        ensures
            match r {
                Some(i) => 0 <= i < self.orderbooks@.len() && pair_eq(
                    self.orderbooks@[i as int].0,
                    *pair,
                ),
                None => !has_market(self.orderbooks@, *pair),
            },
    {
        let mut i: usize = 0;
        let n = self.orderbooks.len();
        while i < n
            invariant
                i <= n,
                n == self.orderbooks@.len(),
                forall|j: int|
                    0 <= j < i ==> !pair_eq((#[trigger] self.orderbooks@[j]).0, *pair),
            decreases n - i,
        {
            if self.orderbooks[i].0.matches(pair) {
                return Some(i);
            }
            i = i + 1;
        }
        None
    }
}

} // verus!
