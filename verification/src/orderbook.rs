//! The order book: prices, orders, price levels and the matching algorithm.

use vstd::prelude::*;

verus! {

/// Number of price units per whole currency unit: prices carry five
/// fixed-point fractional digits.
pub const PRICE_SCALAR: u64 = 100000;

/// A monetary price with fixed-point precision: an integral part, a
/// fractional part scaled by `PRICE_SCALAR`, and the scalar itself.
/// Equality, ordering and hashing are structural on the triple, so prices
/// are exactly comparable and usable as map keys.
#[derive(Debug, Clone, Copy, PartialEq, Eq, PartialOrd, Ord, Hash, Structural)]
pub struct Price {
    pub integral: u64,
    pub fractional: u64,
    pub scalar: u64,
}

/// The price that `Price::new` builds from a count of price units.
pub open spec fn price_from_units(units: u64) -> Price {
    Price {
        integral: units / PRICE_SCALAR,
        fractional: units % PRICE_SCALAR,
        scalar: PRICE_SCALAR,
    }
}

impl Price {
    /// A well-formed price: the fractional part is a proper fraction and
    /// the whole value fits back into a count of price units.
    pub open spec fn wf(&self) -> bool {
        &&& self.scalar == PRICE_SCALAR
        &&& self.fractional < PRICE_SCALAR
        &&& self.integral * PRICE_SCALAR + self.fractional <= u64::MAX
    }

    /// The price as a count of price units; ordering on prices is ordering
    /// on this count.
    pub open spec fn spec_units(&self) -> int {
        self.integral * PRICE_SCALAR + self.fractional
    }

    /// Decomposes a count of price units into the (integral, fractional,
    /// scalar) triple. Deterministic: the result is a function of `units`
    /// alone, so equal inputs always yield equal (and equally hashed) prices.
    pub fn new(units: u64) -> (p: Price)
        ensures
            p == price_from_units(units),
            p.wf(),
            p.spec_units() == units,
    {
        let p = Price {
            integral: units / PRICE_SCALAR,
            fractional: units % PRICE_SCALAR,
            scalar: PRICE_SCALAR,
        };
        proof {
            lemma_price_from_units_wf(units);
        }
        p
    }

    /// The count of price units this price stands for.
    pub fn units(&self) -> (u: u64)
        requires
            self.wf(),
        ensures
            u == self.spec_units(),
    {
        self.integral * PRICE_SCALAR + self.fractional
    }

    /// Strict order on prices, lexicographic on (integral, fractional);
    /// on well-formed prices this is exactly the order of their unit counts.
    pub fn lt(&self, other: &Price) -> (r: bool)
        requires
            self.wf(),
            other.wf(),
        ensures
            r == (self.spec_units() < other.spec_units()),
    {
        self.integral < other.integral
            || (self.integral == other.integral && self.fractional < other.fractional)
    }
}

/// The price built from a unit count is well formed and stands for that
/// same count.
pub proof fn lemma_price_from_units_wf(units: u64)
    ensures
        price_from_units(units).wf(),
        price_from_units(units).spec_units() == units,
{
    vstd::arithmetic::div_mod::lemma_fundamental_div_mod(units as int, PRICE_SCALAR as int);
}

/// Law: price construction is injective — two unit counts build equal
/// prices if and only if they are equal, so prices are sound map keys.
pub proof fn lemma_price_new_injective(u1: u64, u2: u64)
    ensures
        (price_from_units(u1) == price_from_units(u2)) <==> u1 == u2,
{
    lemma_price_from_units_wf(u1);
    lemma_price_from_units_wf(u2);
}

/// Law: price construction preserves order — a smaller unit count builds a
/// price with a strictly smaller unit count.
pub proof fn lemma_price_new_ordered(u1: u64, u2: u64)
    requires
        u1 < u2,
    ensures
        price_from_units(u1).spec_units() < price_from_units(u2).spec_units(),
{
    lemma_price_from_units_wf(u1);
    lemma_price_from_units_wf(u2);
}

/// The side of an order: a Bid buys, an Ask sells.
#[derive(Debug, Clone, Copy, PartialEq, Eq, Structural)]
pub enum OrderType {
    Bid,
    Ask,
}

/// A unit of trading intent: a side and a remaining size. The size only
/// ever decreases, and only under the matching algorithm.
#[derive(Debug, Clone, Copy, PartialEq, Eq, Structural)]
pub struct Order {
    pub size: u64,
    pub order_type: OrderType,
}

impl Order {
    pub fn new(order_type: OrderType, size: u64) -> (o: Order)
        ensures
            o.order_type == order_type,
            o.size == size,
    {
        Order { size, order_type }
    }

    /// An order is filled exactly when its remaining size is zero.
    pub fn is_filled(&self) -> (r: bool)
        ensures
            r == (self.size == 0),
    {
        self.size == 0
    }
}

/// The remaining sizes of a queue of orders, as mathematical integers.
pub open spec fn order_sizes(orders: Seq<Order>) -> Seq<int> {
    orders.map(|i: int, o: Order| o.size as int)
}

/// Every entry is a size a `u64` can hold.
pub open spec fn sizes_valid(s: Seq<int>) -> bool {
    forall|i: int| 0 <= i < s.len() ==> 0 <= #[trigger] s[i] <= u64::MAX
}

/// The sum of a sequence of integers.
pub open spec fn seq_sum(s: Seq<int>) -> int
    decreases s.len(),
{
    if s.len() == 0 {
        0
    } else {
        s[0] + seq_sum(s.drop_first())
    }
}

/// Extending a prefix by one element adds that element to its sum.
pub proof fn lemma_seq_sum_take_succ(s: Seq<int>, i: int)
    requires
        0 <= i < s.len(),
    ensures
        seq_sum(s.take(i + 1)) == seq_sum(s.take(i)) + s[i],
    decreases i,
{
    if i == 0 {
        assert(s.take(1).drop_first() =~= Seq::<int>::empty());
        assert(s.take(0) =~= Seq::<int>::empty());
    } else {
        lemma_seq_sum_take_succ(s.drop_first(), i - 1);
        assert(s.take(i + 1).drop_first() =~= s.drop_first().take(i));
        assert(s.take(i).drop_first() =~= s.drop_first().take(i - 1));
    }
}

/// The whole sequence is its own full prefix.
pub proof fn lemma_seq_sum_take_all(s: Seq<int>)
    ensures
        seq_sum(s.take(s.len() as int)) == seq_sum(s),
{
    assert(s.take(s.len() as int) =~= s);
}

/// A sum of valid sizes is non-negative and at most `len` times the
/// largest size a `u64` can hold.
pub proof fn lemma_seq_sum_bounds(s: Seq<int>)
    requires
        sizes_valid(s),
    ensures
        0 <= seq_sum(s) <= s.len() * (u64::MAX as int),
    decreases s.len(),
{
    if s.len() > 0 {
        assert(sizes_valid(s.drop_first()));
        lemma_seq_sum_bounds(s.drop_first());
    }
}

/// Updating one entry shifts the sum by the difference.
pub proof fn lemma_seq_sum_update(s: Seq<int>, k: int, v: int)
    requires
        0 <= k < s.len(),
    ensures
        seq_sum(s.update(k, v)) == seq_sum(s) - s[k] + v,
    decreases s.len(),
{
    if k == 0 {
        assert(s.update(0, v).drop_first() =~= s.drop_first());
    } else {
        lemma_seq_sum_update(s.drop_first(), k - 1, v);
        assert(s.update(k, v).drop_first() =~= s.drop_first().update(k - 1, v));
    }
}

/// The state of one price level's order queue after the incoming size has
/// been matched against its first `i` resting sizes in FIFO order: the new
/// resting sizes, and what is left of the incoming size. Each step takes
/// the minimum of what is left and the resting size.
pub open spec fn limit_fill_upto(sizes: Seq<int>, incoming: int, i: int) -> (Seq<int>, int)
    decreases i,
{
    if i <= 0 {
        (sizes, incoming)
    } else {
        let prev = limit_fill_upto(sizes, incoming, i - 1);
        let take = if prev.1 < prev.0[i - 1] {
            prev.1
        } else {
            prev.0[i - 1]
        };
        (prev.0.update(i - 1, prev.0[i - 1] - take), prev.1 - take)
    }
}

/// The state of a whole price level after matching the incoming size
/// against all of its resting sizes.
pub open spec fn limit_fill(sizes: Seq<int>, incoming: int) -> (Seq<int>, int) {
    limit_fill_upto(sizes, incoming, sizes.len() as int)
}

/// How much of the incoming size one price level absorbs.
pub open spec fn limit_filled_amount(sizes: Seq<int>, incoming: int) -> int {
    incoming - limit_fill(sizes, incoming).1
}

/// Structural facts about a partial fill of one price level: lengths and
/// the untouched suffix are preserved, sizes only decrease and stay valid,
/// the remaining incoming size shrinks from `incoming` toward zero, and a
/// remainder can only be left once every processed resting size is zero.
pub proof fn lemma_limit_fill_upto_props(sizes: Seq<int>, incoming: int, i: int)
    requires
        sizes_valid(sizes),
        0 <= incoming,
        0 <= i <= sizes.len(),
    ensures
        limit_fill_upto(sizes, incoming, i).0.len() == sizes.len(),
        sizes_valid(limit_fill_upto(sizes, incoming, i).0),
        0 <= limit_fill_upto(sizes, incoming, i).1 <= incoming,
        forall|j: int|
            i <= j < sizes.len() ==> limit_fill_upto(sizes, incoming, i).0[j] == sizes[j],
        forall|j: int|
            0 <= j < sizes.len() ==> limit_fill_upto(sizes, incoming, i).0[j] <= sizes[j],
        limit_fill_upto(sizes, incoming, i).1 > 0 ==> forall|j: int|
            0 <= j < i ==> limit_fill_upto(sizes, incoming, i).0[j] == 0,
    decreases i,
{
    if i > 0 {
        lemma_limit_fill_upto_props(sizes, incoming, i - 1);
    }
}

/// Once the incoming size is exhausted, processing further resting orders
/// changes nothing.
pub proof fn lemma_limit_fill_upto_stable(sizes: Seq<int>, incoming: int, i: int, j: int)
    requires
        0 <= i <= j <= sizes.len(),
        limit_fill_upto(sizes, incoming, i).1 == 0,
        sizes_valid(sizes),
        0 <= incoming,
    ensures
        limit_fill_upto(sizes, incoming, j) == limit_fill_upto(sizes, incoming, i),
    decreases j - i,
{
    if j > i {
        lemma_limit_fill_upto_stable(sizes, incoming, i, j - 1);
        lemma_limit_fill_upto_props(sizes, incoming, j - 1);
        assert(limit_fill_upto(sizes, incoming, j).0 =~= limit_fill_upto(
            sizes,
            incoming,
            j - 1,
        ).0);
    }
}

/// Law (conservation at one price level): what the incoming order loses is
/// exactly what the resting orders lose, and never more than was asked.
pub proof fn lemma_limit_fill_conserves(sizes: Seq<int>, incoming: int)
    ensures
        sizes_valid(sizes) && 0 <= incoming ==> {
            &&& limit_filled_amount(sizes, incoming) == seq_sum(sizes) - seq_sum(
                limit_fill(sizes, incoming).0,
            )
            &&& 0 <= limit_filled_amount(sizes, incoming) <= incoming
        },
{
    if sizes_valid(sizes) && 0 <= incoming {
        lemma_limit_fill_conserves_upto(sizes, incoming, sizes.len() as int);
        lemma_limit_fill_upto_props(sizes, incoming, sizes.len() as int);
    }
}

proof fn lemma_limit_fill_conserves_upto(sizes: Seq<int>, incoming: int, i: int)
    requires
        sizes_valid(sizes),
        0 <= incoming,
        0 <= i <= sizes.len(),
    ensures
        incoming - limit_fill_upto(sizes, incoming, i).1 == seq_sum(sizes) - seq_sum(
            limit_fill_upto(sizes, incoming, i).0,
        ),
    decreases i,
{
    if i > 0 {
        lemma_limit_fill_conserves_upto(sizes, incoming, i - 1);
        lemma_limit_fill_upto_props(sizes, incoming, i - 1);
        let prev = limit_fill_upto(sizes, incoming, i - 1);
        let take = if prev.1 < prev.0[i - 1] {
            prev.1
        } else {
            prev.0[i - 1]
        };
        lemma_seq_sum_update(prev.0, i - 1, prev.0[i - 1] - take);
    }
}

/// Law (FIFO within a level): a later resting order is touched only after
/// every earlier one at the level has been fully drained.
pub proof fn lemma_limit_fill_fifo(sizes: Seq<int>, incoming: int, j: int)
    requires
        sizes_valid(sizes),
        0 <= incoming,
        0 <= j < sizes.len(),
        limit_fill(sizes, incoming).0[j] != sizes[j],
    ensures
        forall|k: int| 0 <= k < j ==> limit_fill(sizes, incoming).0[k] == 0,
{
    lemma_limit_fill_fifo_upto(sizes, incoming, j, sizes.len() as int);
}

proof fn lemma_limit_fill_fifo_upto(sizes: Seq<int>, incoming: int, j: int, i: int)
    requires
        sizes_valid(sizes),
        0 <= incoming,
        0 <= j < sizes.len(),
        0 <= i <= sizes.len(),
        limit_fill_upto(sizes, incoming, i).0[j] != sizes[j],
    ensures
        forall|k: int| 0 <= k < j ==> limit_fill_upto(sizes, incoming, i).0[k] == 0,
    decreases i,
{
    lemma_limit_fill_upto_props(sizes, incoming, i);
    if i > 0 {
        let prev = limit_fill_upto(sizes, incoming, i - 1);
        lemma_limit_fill_upto_props(sizes, incoming, i - 1);
        if prev.0[j] != sizes[j] {
            lemma_limit_fill_fifo_upto(sizes, incoming, j, i - 1);
            assert forall|k: int| 0 <= k < j implies limit_fill_upto(sizes, incoming, i).0[k]
                == 0 by {
                assert(prev.0[k] == 0);
            }
        } else {
            // The order at j was touched at step i itself, so j == i - 1 and
            // the step still had a positive remainder.
            assert(j == i - 1);
            assert(prev.1 > 0);
        }
    }
}

/// Law (liquidity accounting): an incoming size at least the level's total
/// liquidity drains every resting order to zero and leaves exactly the
/// difference unfilled.
pub proof fn lemma_limit_fill_drains(sizes: Seq<int>, incoming: int)
    requires
        sizes_valid(sizes),
        incoming >= seq_sum(sizes),
    ensures
        forall|j: int| 0 <= j < sizes.len() ==> limit_fill(sizes, incoming).0[j] == 0,
        limit_fill(sizes, incoming).1 == incoming - seq_sum(sizes),
    decreases sizes.len(),
{
    lemma_seq_sum_bounds(sizes);
    lemma_limit_fill_drains_upto(sizes, incoming, sizes.len() as int);
    lemma_limit_fill_conserves(sizes, incoming);
    let out = limit_fill(sizes, incoming).0;
    lemma_limit_fill_upto_props(sizes, incoming, sizes.len() as int);
    lemma_seq_sum_all_zero(out);
}

/// A sequence of all-zero entries sums to zero.
proof fn lemma_seq_sum_all_zero(s: Seq<int>)
    requires
        forall|j: int| 0 <= j < s.len() ==> s[j] == 0,
    ensures
        seq_sum(s) == 0,
    decreases s.len(),
{
    if s.len() > 0 {
        lemma_seq_sum_all_zero(s.drop_first());
    }
}

proof fn lemma_limit_fill_drains_upto(sizes: Seq<int>, incoming: int, i: int)
    requires
        sizes_valid(sizes),
        incoming >= seq_sum(sizes),
        0 <= i <= sizes.len(),
    ensures
        forall|j: int| 0 <= j < i ==> limit_fill_upto(sizes, incoming, i).0[j] == 0,
    decreases i,
{
    lemma_seq_sum_bounds(sizes);
    if i > 0 {
        lemma_limit_fill_drains_upto(sizes, incoming, i - 1);
        lemma_limit_fill_upto_props(sizes, incoming, i - 1);
        lemma_limit_fill_conserves_upto(sizes, incoming, i - 1);
        let prev = limit_fill_upto(sizes, incoming, i - 1);
        // What is already drained out of earlier orders leaves the remainder
        // at least the sum of the untouched suffix, hence at least sizes[i-1].
        lemma_seq_sum_suffix_bound(prev.0, i - 1);
        assert forall|j: int| 0 <= j < i implies limit_fill_upto(sizes, incoming, i).0[j]
            == 0 by {
            if j < i - 1 {
                assert(prev.0[j] == 0);
            }
        }
    }
}

/// A sequence of non-negative entries that are zero before `k` has sum at
/// least the entry at `k`.
proof fn lemma_seq_sum_suffix_bound(s: Seq<int>, k: int)
    requires
        sizes_valid(s),
        0 <= k < s.len(),
        forall|j: int| 0 <= j < k ==> s[j] == 0,
    ensures
        seq_sum(s) >= s[k],
    decreases k,
{
    if k == 0 {
        assert(sizes_valid(s.drop_first()));
        lemma_seq_sum_bounds(s.drop_first());
    } else {
        assert(sizes_valid(s.drop_first()));
        lemma_seq_sum_suffix_bound(s.drop_first(), k - 1);
    }
}

/// One per-price-level entry of a fill report: how much was consumed at
/// which price.
#[derive(Debug, Clone, Copy, PartialEq, Eq, Structural)]
pub struct FilledOrder {
    pub price: Price,
    pub size: u64,
}

/// A price level: the FIFO queue of all resting orders at one exact price.
/// Fully filled orders stay in the queue at size zero; they are never
/// compacted away.
#[derive(Debug)]
pub struct Limit {
    pub price: Price,
    pub orders: Vec<Order>,
}

impl Limit {
    pub fn new(price: Price) -> (l: Limit)
        ensures
            l.price == price,
            l.orders@ =~= Seq::<Order>::empty(),
    {
        Limit { price, orders: Vec::new() }
    }

    /// Appends an order at the tail of the FIFO queue.
    pub fn add_order(&mut self, order: Order)
        ensures
            final(self).price == old(self).price,
            final(self).orders@ == old(self).orders@.push(order),
    {
        self.orders.push(order);
    }

    /// The total remaining size resting at this level, already-zero orders
    /// contributing zero.
    pub fn get_liquidity(&self) -> (liquidity: u128)
        ensures
            liquidity == seq_sum(order_sizes(self.orders@)),
    {
        let ghost sizes = order_sizes(self.orders@);
        let mut total: u128 = 0;
        let mut i: usize = 0;
        let n = self.orders.len();
        proof {
            assert(sizes.take(0) =~= Seq::<int>::empty());
        }
        while i < n
            invariant
                i <= n,
                n == self.orders@.len(),
                sizes == order_sizes(self.orders@),
                total == seq_sum(sizes.take(i as int)),
                total <= i * (u64::MAX as int),
            decreases n - i,
        {
            proof {
                lemma_seq_sum_take_succ(sizes, i as int);
            }
            total = total + self.orders[i].size as u128;
            i = i + 1;
        }
        proof {
            lemma_seq_sum_take_all(sizes);
        }
        total
    }

    /// Drains this level's queue in FIFO order against `market_order`:
    /// each resting order gives up the minimum of its size and what the
    /// incoming order still wants, until the incoming order is filled or
    /// the queue is exhausted.
    pub fn fill_order(&mut self, market_order: &mut Order)
        ensures
            final(self).price == old(self).price,
            final(self).orders@.len() == old(self).orders@.len(),
            forall|j: int|
                0 <= j < old(self).orders@.len() ==> final(self).orders@[j].order_type == old(
                    self,
                ).orders@[j].order_type,
            order_sizes(final(self).orders@) == limit_fill(
                order_sizes(old(self).orders@),
                old(market_order).size as int,
            ).0,
            final(market_order).size as int == limit_fill(
                order_sizes(old(self).orders@),
                old(market_order).size as int,
            ).1,
            final(market_order).order_type == old(market_order).order_type,
    {
        let mut tracking: Vec<FilledOrder> = Vec::new();
        self.fill_order_with_tracking(market_order, &mut tracking);
    }

    /// As `fill_order`, and additionally returns the size consumed at this
    /// level and, when that size is non-zero, appends one aggregated
    /// `FilledOrder` record for the level to `filled_orders`.
    pub fn fill_order_with_tracking(
        &mut self,
        market_order: &mut Order,
        filled_orders: &mut Vec<FilledOrder>,
    ) -> (filled: u64)
        ensures
            final(self).price == old(self).price,
            final(self).orders@.len() == old(self).orders@.len(),
            forall|j: int|
                0 <= j < old(self).orders@.len() ==> final(self).orders@[j].order_type == old(
                    self,
                ).orders@[j].order_type,
            order_sizes(final(self).orders@) == limit_fill(
                order_sizes(old(self).orders@),
                old(market_order).size as int,
            ).0,
            final(market_order).size as int == limit_fill(
                order_sizes(old(self).orders@),
                old(market_order).size as int,
            ).1,
            final(market_order).order_type == old(market_order).order_type,
            filled as int == old(market_order).size - final(market_order).size,
            final(filled_orders)@ == if filled > 0 {
                old(filled_orders)@.push(FilledOrder { price: old(self).price, size: filled })
            } else {
                old(filled_orders)@
            },
    {
        let ghost orig_orders = self.orders@;
        let ghost sizes = order_sizes(orig_orders);
        let ghost incoming = market_order.size as int;
        let ghost m0 = *market_order;
        let mut filled_size: u64 = 0;
        let mut i: usize = 0;
        let n = self.orders.len();
        proof {
            assert(sizes_valid(sizes));
        }
        while i < n
            invariant
                i <= n,
                n == self.orders@.len(),
                self.orders@.len() == orig_orders.len(),
                self.price == old(self).price,
                sizes == order_sizes(orig_orders),
                sizes_valid(sizes),
                incoming == m0.size as int,
                forall|j: int|
                    0 <= j < orig_orders.len() ==> self.orders@[j].order_type
                        == orig_orders[j].order_type,
                order_sizes(self.orders@) == limit_fill_upto(sizes, incoming, i as int).0,
                market_order.size as int == limit_fill_upto(sizes, incoming, i as int).1,
                market_order.order_type == m0.order_type,
                filled_size as int == incoming - market_order.size as int,
            ensures
                i <= n,
                n == self.orders@.len(),
                self.orders@.len() == orig_orders.len(),
                self.price == old(self).price,
                forall|j: int|
                    0 <= j < orig_orders.len() ==> self.orders@[j].order_type
                        == orig_orders[j].order_type,
                order_sizes(self.orders@) == limit_fill_upto(sizes, incoming, i as int).0,
                market_order.size as int == limit_fill_upto(sizes, incoming, i as int).1,
                market_order.order_type == m0.order_type,
                filled_size as int == incoming - market_order.size as int,
                i == n || market_order.size == 0,
            decreases n - i,
        {
            proof {
                lemma_limit_fill_upto_props(sizes, incoming, i as int);
            }
            let resting = self.orders[i];
            let fill_size = if market_order.size < resting.size {
                market_order.size
            } else {
                resting.size
            };
            market_order.size = market_order.size - fill_size;
            let updated = Order { size: resting.size - fill_size, order_type: resting.order_type };
            let ghost pre_loop_orders = self.orders@;
            *vstd::std_specs::vec::vec_index_mut(&mut self.orders, i) = updated;
            filled_size = filled_size + fill_size;
            proof {
                assert(order_sizes(self.orders@) =~= limit_fill_upto(
                    sizes,
                    incoming,
                    i as int + 1,
                ).0) by {
                    assert(self.orders@ == pre_loop_orders.update(i as int, updated));
                    assert(order_sizes(pre_loop_orders.update(i as int, updated))
                        =~= order_sizes(pre_loop_orders).update(i as int, updated.size as int));
                }
            }
            i = i + 1;
            if market_order.is_filled() {
                break;
            }
        }
        proof {
            lemma_limit_fill_upto_props(sizes, incoming, i as int);
            if i < n {
                lemma_limit_fill_upto_stable(sizes, incoming, i as int, n as int);
            }
            assert(limit_fill_upto(sizes, incoming, n as int) == limit_fill(sizes, incoming));
        }
        if filled_size > 0 {
            filled_orders.push(FilledOrder { price: self.price, size: filled_size });
        }
        filled_size
    }
}

/// The unit counts of the prices of a side's levels, in stored order.
pub open spec fn side_prices(side: Seq<Limit>) -> Seq<int> {
    side.map(|i: int, l: Limit| l.price.spec_units())
}

/// The resting sizes of a side's levels, in stored order.
pub open spec fn side_sizes(side: Seq<Limit>) -> Seq<Seq<int>> {
    side.map(|i: int, l: Limit| order_sizes(l.orders@))
}

/// Every level's price on the side is well formed.
pub open spec fn limits_wf(side: Seq<Limit>) -> bool {
    forall|i: int| 0 <= i < side.len() ==> (#[trigger] side[i].price).wf()
}

/// Prices strictly increase along the side (best ask first).
pub open spec fn sorted_ascending(side: Seq<Limit>) -> bool {
    forall|i: int, j: int|
        0 <= i < j < side.len() ==> side[i].price.spec_units() < side[j].price.spec_units()
}

/// Prices strictly decrease along the side (best bid first).
pub open spec fn sorted_descending(side: Seq<Limit>) -> bool {
    forall|i: int, j: int|
        0 <= i < j < side.len() ==> side[i].price.spec_units() > side[j].price.spec_units()
}

/// Every level's sizes are valid `u64` sizes.
pub open spec fn side_sizes_valid(sizess: Seq<Seq<int>>) -> bool {
    forall|i: int| 0 <= i < sizess.len() ==> sizes_valid(#[trigger] sizess[i])
}

/// Every price unit count fits a `u64`.
pub open spec fn side_prices_valid(prices: Seq<int>) -> bool {
    forall|i: int| 0 <= i < prices.len() ==> 0 <= #[trigger] prices[i] <= u64::MAX
}

/// The state of a side after the incoming size has been matched against
/// its first `i` levels in stored (priority) order: the new resting sizes
/// of every level, and what is left of the incoming size.
pub open spec fn book_fill_upto(sizess: Seq<Seq<int>>, incoming: int, i: int) -> (
    Seq<Seq<int>>,
    int,
)
    decreases i,
{
    if i <= 0 {
        (sizess, incoming)
    } else {
        let prev = book_fill_upto(sizess, incoming, i - 1);
        let lf = limit_fill(prev.0[i - 1], prev.1);
        (prev.0.update(i - 1, lf.0), lf.1)
    }
}

/// The state of a side after matching the incoming size against all of
/// its levels.
pub open spec fn book_fill(sizess: Seq<Seq<int>>, incoming: int) -> (Seq<Seq<int>>, int) {
    book_fill_upto(sizess, incoming, sizess.len() as int)
}

/// The fill report after matching against the first `i` levels: one
/// (price units, consumed size) entry, in visiting order, for each level
/// that contributed a non-zero amount.
pub open spec fn book_fills_upto(
    prices: Seq<int>,
    sizess: Seq<Seq<int>>,
    incoming: int,
    i: int,
) -> Seq<(int, int)>
    decreases i,
{
    if i <= 0 {
        Seq::empty()
    } else {
        let contributed = book_fill_upto(sizess, incoming, i - 1).1 - book_fill_upto(
            sizess,
            incoming,
            i,
        ).1;
        book_fills_upto(prices, sizess, incoming, i - 1) + if contributed > 0 {
            seq![(prices[i - 1], contributed)]
        } else {
            Seq::empty()
        }
    }
}

/// The fill report after matching against all levels of the side.
pub open spec fn book_fills(prices: Seq<int>, sizess: Seq<Seq<int>>, incoming: int) -> Seq<
    (int, int),
> {
    book_fills_upto(prices, sizess, incoming, sizess.len() as int)
}

/// The total size of a fill report.
pub open spec fn fills_size_sum(fills: Seq<(int, int)>) -> int
    decreases fills.len(),
{
    if fills.len() == 0 {
        0
    } else {
        fills[0].1 + fills_size_sum(fills.drop_first())
    }
}

/// The total value of a fill report: the sum over its entries of price
/// units times consumed size.
pub open spec fn fills_volume(fills: Seq<(int, int)>) -> int
    decreases fills.len(),
{
    if fills.len() == 0 {
        0
    } else {
        fills[0].0 * fills[0].1 + fills_volume(fills.drop_first())
    }
}

/// A fill report's entries as (price units, size) pairs.
pub open spec fn fills_model(fills: Seq<FilledOrder>) -> Seq<(int, int)> {
    fills.map(|i: int, f: FilledOrder| (f.price.spec_units(), f.size as int))
}

/// Appending one entry adds its size to the total size and its value to
/// the total value.
proof fn lemma_fills_push(fills: Seq<(int, int)>, e: (int, int))
    ensures
        fills_size_sum(fills.push(e)) == fills_size_sum(fills) + e.1,
        fills_volume(fills.push(e)) == fills_volume(fills) + e.0 * e.1,
    decreases fills.len(),
{
    let p = fills.push(e);
    assert(p.len() == fills.len() + 1);
    assert(fills_size_sum(p) == p[0].1 + fills_size_sum(p.drop_first()));
    assert(fills_volume(p) == p[0].0 * p[0].1 + fills_volume(p.drop_first()));
    if fills.len() == 0 {
        assert(p[0] == e);
        assert(p.drop_first() =~= Seq::<(int, int)>::empty());
        assert(fills_size_sum(p.drop_first()) == 0);
        assert(fills_volume(p.drop_first()) == 0);
    } else {
        lemma_fills_push(fills.drop_first(), e);
        assert(p[0] == fills[0]);
        assert(p.drop_first() =~= fills.drop_first().push(e));
        assert(fills_size_sum(fills) == fills[0].1 + fills_size_sum(fills.drop_first()));
        assert(fills_volume(fills) == fills[0].0 * fills[0].1 + fills_volume(fills.drop_first()));
    }
}

/// Structural facts about a partial fill of a side: level count and the
/// untouched levels are preserved, sizes stay valid, the remainder shrinks
/// from `incoming` toward zero, and a remainder can only be left once
/// every visited level is fully drained.
pub proof fn lemma_book_fill_upto_props(sizess: Seq<Seq<int>>, incoming: int, i: int)
    requires
        side_sizes_valid(sizess),
        0 <= incoming,
        0 <= i <= sizess.len(),
    ensures
        book_fill_upto(sizess, incoming, i).0.len() == sizess.len(),
        side_sizes_valid(book_fill_upto(sizess, incoming, i).0),
        0 <= book_fill_upto(sizess, incoming, i).1 <= incoming,
        forall|j: int|
            i <= j < sizess.len() ==> book_fill_upto(sizess, incoming, i).0[j] == sizess[j],
        forall|j: int|
            0 <= j < sizess.len() ==> (#[trigger] book_fill_upto(sizess, incoming, i).0[j]).len()
                == sizess[j].len(),
        book_fill_upto(sizess, incoming, i).1 > 0 ==> forall|j: int, k: int|
            0 <= j < i && 0 <= k < sizess[j].len() ==> #[trigger] book_fill_upto(
                sizess,
                incoming,
                i,
            ).0[j][k] == 0,
    decreases i,
{
    if i > 0 {
        lemma_book_fill_upto_props(sizess, incoming, i - 1);
        let prev = book_fill_upto(sizess, incoming, i - 1);
        lemma_limit_fill_upto_props(prev.0[i - 1], prev.1, prev.0[i - 1].len() as int);
    }
}

/// Once the incoming size is exhausted, visiting further levels changes
/// neither the side nor the fill report.
pub proof fn lemma_book_fill_upto_stable(
    prices: Seq<int>,
    sizess: Seq<Seq<int>>,
    incoming: int,
    i: int,
    j: int,
)
    requires
        side_sizes_valid(sizess),
        0 <= incoming,
        0 <= i <= j <= sizess.len(),
        book_fill_upto(sizess, incoming, i).1 == 0,
    ensures
        book_fill_upto(sizess, incoming, j) == book_fill_upto(sizess, incoming, i),
        book_fills_upto(prices, sizess, incoming, j) == book_fills_upto(
            prices,
            sizess,
            incoming,
            i,
        ),
    decreases j - i,
{
    if j > i {
        lemma_book_fill_upto_stable(prices, sizess, incoming, i, j - 1);
        lemma_book_fill_upto_props(sizess, incoming, j - 1);
        let prev = book_fill_upto(sizess, incoming, j - 1);
        lemma_limit_fill_upto_stable(prev.0[j - 1], prev.1, 0, prev.0[j - 1].len() as int);
        assert(book_fill_upto(sizess, incoming, j).0 =~= prev.0);
        assert(book_fills_upto(prices, sizess, incoming, j) =~= book_fills_upto(
            prices,
            sizess,
            incoming,
            j - 1,
        ));
    }
}

/// The fill report accounts exactly for the consumed incoming size, and
/// its total value is bounded by the largest price times that size.
pub proof fn lemma_book_fills_upto_props(
    prices: Seq<int>,
    sizess: Seq<Seq<int>>,
    incoming: int,
    i: int,
)
    requires
        side_sizes_valid(sizess),
        side_prices_valid(prices),
        prices.len() == sizess.len(),
        0 <= incoming,
        0 <= i <= sizess.len(),
    ensures
        fills_size_sum(book_fills_upto(prices, sizess, incoming, i)) == incoming - book_fill_upto(
            sizess,
            incoming,
            i,
        ).1,
        0 <= fills_volume(book_fills_upto(prices, sizess, incoming, i)) <= (u64::MAX as int) * (
        incoming - book_fill_upto(sizess, incoming, i).1),
    decreases i,
{
    if i > 0 {
        lemma_book_fills_upto_props(prices, sizess, incoming, i - 1);
        lemma_book_fill_upto_props(sizess, incoming, i - 1);
        lemma_book_fill_upto_props(sizess, incoming, i);
        let prev = book_fill_upto(sizess, incoming, i - 1);
        lemma_limit_fill_upto_props(prev.0[i - 1], prev.1, prev.0[i - 1].len() as int);
        let rp = book_fill_upto(sizess, incoming, i - 1).1;
        let rc = book_fill_upto(sizess, incoming, i).1;
        assert(0 <= rc <= rp);
        let contributed = rp - rc;
        let fp = book_fills_upto(prices, sizess, incoming, i - 1);
        if contributed > 0 {
            assert(book_fills_upto(prices, sizess, incoming, i) =~= fp.push(
                (prices[i - 1], contributed),
            ));
            lemma_fills_push(fp, (prices[i - 1], contributed));
            assert(prices[i - 1] * contributed <= (u64::MAX as int) * contributed) by {
                vstd::arithmetic::mul::lemma_mul_inequality(
                    prices[i - 1],
                    u64::MAX as int,
                    contributed,
                );
            }
            assert(prices[i - 1] * contributed >= 0) by {
                vstd::arithmetic::mul::lemma_mul_nonnegative(prices[i - 1], contributed);
            }
        } else {
            assert(book_fills_upto(prices, sizess, incoming, i) =~= fp);
        }
    }
}

/// The total resting liquidity of a side: the sum of all resting sizes
/// over all its levels.
pub open spec fn side_liquidity(sizess: Seq<Seq<int>>) -> int
    decreases sizess.len(),
{
    if sizess.len() == 0 {
        0
    } else {
        seq_sum(sizess[0]) + side_liquidity(sizess.drop_first())
    }
}

proof fn lemma_side_liquidity_nonneg(sizess: Seq<Seq<int>>)
    requires
        side_sizes_valid(sizess),
    ensures
        side_liquidity(sizess) >= 0,
    decreases sizess.len(),
{
    if sizess.len() > 0 {
        lemma_seq_sum_bounds(sizess[0]);
        assert(side_sizes_valid(sizess.drop_first()));
        lemma_side_liquidity_nonneg(sizess.drop_first());
    }
}

proof fn lemma_side_liquidity_update(sizess: Seq<Seq<int>>, k: int, v: Seq<int>)
    requires
        0 <= k < sizess.len(),
    ensures
        side_liquidity(sizess.update(k, v)) == side_liquidity(sizess) - seq_sum(sizess[k])
            + seq_sum(v),
    decreases sizess.len(),
{
    if k == 0 {
        assert(sizess.update(0, v).drop_first() =~= sizess.drop_first());
    } else {
        lemma_side_liquidity_update(sizess.drop_first(), k - 1, v);
        assert(sizess.update(k, v).drop_first() =~= sizess.drop_first().update(k - 1, v));
    }
}

/// Law (conservation across the book): what an incoming order loses over a
/// whole matching pass equals what the side's resting liquidity loses, and
/// never more than was asked.
pub proof fn lemma_book_fill_conserves(sizess: Seq<Seq<int>>, incoming: int)
    requires
        side_sizes_valid(sizess),
        0 <= incoming,
    ensures
        incoming - book_fill(sizess, incoming).1 == side_liquidity(sizess) - side_liquidity(
            book_fill(sizess, incoming).0,
        ),
        0 <= incoming - book_fill(sizess, incoming).1 <= incoming,
{
    lemma_book_fill_conserves_upto(sizess, incoming, sizess.len() as int);
    lemma_book_fill_upto_props(sizess, incoming, sizess.len() as int);
}

proof fn lemma_book_fill_conserves_upto(sizess: Seq<Seq<int>>, incoming: int, i: int)
    requires
        side_sizes_valid(sizess),
        0 <= incoming,
        0 <= i <= sizess.len(),
    ensures
        incoming - book_fill_upto(sizess, incoming, i).1 == side_liquidity(sizess)
            - side_liquidity(book_fill_upto(sizess, incoming, i).0),
    decreases i,
{
    if i > 0 {
        lemma_book_fill_conserves_upto(sizess, incoming, i - 1);
        lemma_book_fill_upto_props(sizess, incoming, i - 1);
        let prev = book_fill_upto(sizess, incoming, i - 1);
        let lf = limit_fill(prev.0[i - 1], prev.1);
        lemma_limit_fill_conserves(prev.0[i - 1], prev.1);
        lemma_side_liquidity_update(prev.0, i - 1, lf.0);
    }
}

/// Law (liquidity insufficiency): an incoming order larger than the side's
/// whole resting liquidity ends with a positive remaining size — a partial
/// fill, not an error.
pub proof fn lemma_book_fill_partial(sizess: Seq<Seq<int>>, incoming: int)
    requires
        side_sizes_valid(sizess),
        incoming > side_liquidity(sizess),
    ensures
        book_fill(sizess, incoming).1 >= incoming - side_liquidity(sizess),
        book_fill(sizess, incoming).1 > 0,
{
    lemma_side_liquidity_nonneg(sizess);
    lemma_book_fill_conserves(sizess, incoming);
    lemma_book_fill_upto_props(sizess, incoming, sizess.len() as int);
    lemma_side_liquidity_nonneg(book_fill(sizess, incoming).0);
}

/// Law (price priority): a level is touched by a fill only after every
/// better-priced level before it has been fully drained.
pub proof fn lemma_book_fill_priority(sizess: Seq<Seq<int>>, incoming: int, j: int)
    requires
        side_sizes_valid(sizess),
        0 <= incoming,
        0 <= j < sizess.len(),
        book_fill(sizess, incoming).0[j] != sizess[j],
    ensures
        forall|k: int, l: int|
            0 <= k < j && 0 <= l < sizess[k].len() ==> #[trigger] book_fill(
                sizess,
                incoming,
            ).0[k][l] == 0,
{
    lemma_book_fill_priority_upto(sizess, incoming, j, sizess.len() as int);
}

proof fn lemma_book_fill_priority_upto(sizess: Seq<Seq<int>>, incoming: int, j: int, i: int)
    requires
        side_sizes_valid(sizess),
        0 <= incoming,
        0 <= j < sizess.len(),
        0 <= i <= sizess.len(),
        book_fill_upto(sizess, incoming, i).0[j] != sizess[j],
    ensures
        forall|k: int, l: int|
            0 <= k < j && 0 <= l < sizess[k].len() ==> #[trigger] book_fill_upto(
                sizess,
                incoming,
                i,
            ).0[k][l] == 0,
    decreases i,
{
    lemma_book_fill_upto_props(sizess, incoming, i);
    if i > 0 {
        let prev = book_fill_upto(sizess, incoming, i - 1);
        lemma_book_fill_upto_props(sizess, incoming, i - 1);
        if prev.0[j] != sizess[j] {
            lemma_book_fill_priority_upto(sizess, incoming, j, i - 1);
            assert forall|k: int, l: int|
                0 <= k < j && 0 <= l < sizess[k].len() implies #[trigger] book_fill_upto(
                sizess,
                incoming,
                i,
            ).0[k][l] == 0 by {
                assert(prev.0[k][l] == 0);
            }
        } else {
            // The level at j was touched at step i itself, so j == i - 1 and
            // the step began with a positive remainder; every earlier level
            // was therefore already drained.
            assert(j == i - 1);
            if prev.1 == 0 {
                lemma_limit_fill_upto_stable(prev.0[j], prev.1, 0, prev.0[j].len() as int);
                assert(false);
            }
            assert(prev.1 > 0);
            lemma_limit_fill_upto_props(prev.0[j], prev.1, prev.0[j].len() as int);
            assert forall|k: int, l: int|
                0 <= k < j && 0 <= l < sizess[k].len() implies #[trigger] book_fill_upto(
                sizess,
                incoming,
                i,
            ).0[k][l] == 0 by {
                assert(prev.0[k][l] == 0);
            }
        }
    }
}

/// The report of one matching call: the total size filled, the size the
/// incoming order still wants, the volume-weighted average fill price in
/// price units (zero when nothing was filled), and the per-level fills in
/// the order the levels were consumed.
#[derive(Debug)]
pub struct FillResult {
    pub filled_size: u64,
    pub remaining_size: u64,
    pub avg_fill_price: u64,
    pub filled_orders: Vec<FilledOrder>,
}

/// Two sides hold the same levels: same prices and same order queues.
pub open spec fn limits_equiv(a: Seq<Limit>, b: Seq<Limit>) -> bool {
    &&& a.len() == b.len()
    &&& forall|i: int| 0 <= i < a.len() ==> #[trigger] a[i].price == b[i].price
    &&& forall|i: int| 0 <= i < a.len() ==> #[trigger] a[i].orders@ == b[i].orders@
}

/// A side already holds a level at this exact price.
pub open spec fn side_has_price(side: Seq<Limit>, price: Price) -> bool {
    exists|i: int| 0 <= i < side.len() && (#[trigger] side[i].price) == price
}

/// The new side is the old with `order` appended to the queue of the level
/// at position `i`, everything else untouched.
pub open spec fn side_updated_at(
    old_side: Seq<Limit>,
    new_side: Seq<Limit>,
    i: int,
    order: Order,
) -> bool {
    &&& 0 <= i < old_side.len()
    &&& new_side.len() == old_side.len()
    &&& new_side[i].price == old_side[i].price
    &&& new_side[i].orders@ == old_side[i].orders@.push(order)
    &&& forall|j: int|
        0 <= j < old_side.len() && j != i ==> #[trigger] new_side[j].price == old_side[j].price
            && new_side[j].orders@ == old_side[j].orders@
}

/// The new side is the old with a fresh level at `price`, holding only
/// `order`, inserted at position `i`.
pub open spec fn side_inserted_at(
    old_side: Seq<Limit>,
    new_side: Seq<Limit>,
    i: int,
    price: Price,
    order: Order,
) -> bool {
    &&& 0 <= i <= old_side.len()
    &&& new_side.len() == old_side.len() + 1
    &&& new_side[i].price == price
    &&& new_side[i].orders@ == seq![order]
    &&& forall|j: int|
        0 <= j < i ==> #[trigger] new_side[j].price == old_side[j].price && new_side[j].orders@
            == old_side[j].orders@
    &&& forall|j: int|
        i <= j < old_side.len() ==> #[trigger] new_side[j + 1].price == old_side[j].price
            && new_side[j + 1].orders@ == old_side[j].orders@
}

/// The new side extends the old by `order` resting at `price`: appended to
/// the level already at that price if there is one, else as a fresh level
/// inserted at some position.
pub open spec fn side_after_add(
    old_side: Seq<Limit>,
    new_side: Seq<Limit>,
    price: Price,
    order: Order,
) -> bool {
    if side_has_price(old_side, price) {
        exists|i: int|
            #[trigger] side_updated_at(old_side, new_side, i, order) && old_side[i].price == price
    } else {
        exists|i: int| #[trigger] side_inserted_at(old_side, new_side, i, price, order)
    }
}

/// Two well-formed prices are equal exactly when they stand for the same
/// count of price units.
pub proof fn lemma_wf_price_units_injective(p1: Price, p2: Price)
    requires
        p1.wf(),
        p2.wf(),
    ensures
        (p1 == p2) <==> (p1.spec_units() == p2.spec_units()),
{
}

/// The order book for one market: all ask levels and all bid levels, each
/// price appearing in at most one level per side. Asks are kept sorted
/// ascending (best ask first), bids descending (best bid first).
#[derive(Debug)]
pub struct OrderBook {
    pub asks: Vec<Limit>,
    pub bids: Vec<Limit>,
}

impl OrderBook {
    /// The book's invariant: well-formed prices, asks strictly ascending,
    /// bids strictly descending (so each price names at most one level per
    /// side).
    pub open spec fn wf(&self) -> bool {
        &&& limits_wf(self.asks@)
        &&& limits_wf(self.bids@)
        &&& sorted_ascending(self.asks@)
        &&& sorted_descending(self.bids@)
    }

    /// The book after `order` was posted at `price`: the side matching the
    /// order's own type gained it, the other side is untouched.
    pub open spec fn after_add(&self, new: OrderBook, price: Price, order: Order) -> bool {
        match order.order_type {
            OrderType::Ask => {
                &&& side_after_add(self.asks@, new.asks@, price, order)
                &&& new.bids@ == self.bids@
            },
            OrderType::Bid => {
                &&& side_after_add(self.bids@, new.bids@, price, order)
                &&& new.asks@ == self.asks@
            },
        }
    }

    pub fn new() -> (book: OrderBook)
        ensures
            book.wf(),
            book.asks@ =~= Seq::<Limit>::empty(),
            book.bids@ =~= Seq::<Limit>::empty(),
    {
        OrderBook { asks: Vec::new(), bids: Vec::new() }
    }

    /// All ask levels in matching priority order: ascending by price,
    /// cheapest first.
    pub fn fetch_ask_limits(&self) -> (limits: Vec<Limit>)
        ensures
            limits_equiv(limits@, self.asks@),
    {
        clone_limits(&self.asks)
    }

    /// All bid levels in matching priority order: descending by price,
    /// highest first.
    pub fn fetch_bid_limits(&self) -> (limits: Vec<Limit>)
        ensures
            limits_equiv(limits@, self.bids@),
    {
        clone_limits(&self.bids)
    }

    /// Posts a resting order: normalizes `price` from a count of price
    /// units, finds or lazily creates the level at that price on the side
    /// matching the order's side, and appends the order to that level's
    /// FIFO queue. No matching is attempted and the call always succeeds.
    pub fn add_limit_order(&mut self, price: u64, order: Order)
        requires
            old(self).wf(),
        ensures
            final(self).wf(),
            old(self).after_add(*final(self), price_from_units(price), order),
    {
        let p = Price::new(price);
        match order.order_type {
            OrderType::Ask => {
                add_to_side_ascending(&mut self.asks, p, order);
            },
            OrderType::Bid => {
                add_to_side_descending(&mut self.bids, p, order);
            },
        }
    }

    /// The matching core. Fills `order` against the opposite side's levels
    /// in priority order — an Ask consumes bids from the highest price
    /// down, a Bid consumes asks from the lowest price up — draining each
    /// level FIFO and stopping the instant the order's remaining size
    /// reaches zero. Returns the fill report; an order larger than the
    /// resting liquidity ends partially filled, which is not an error.
    pub fn fill_market_order(&mut self, order: &mut Order) -> (result: FillResult)
        requires
            old(self).wf(),
        ensures
            final(self).wf(),
            final(order).order_type == old(order).order_type,
            result.remaining_size == final(order).size,
            result.filled_size + result.remaining_size == old(order).size,
            fills_size_sum(fills_model(result.filled_orders@)) == result.filled_size as int,
            result.avg_fill_price as int == if result.filled_size == 0 {
                0int
            } else {
                fills_volume(fills_model(result.filled_orders@)) / (result.filled_size as int)
            },
            old(order).order_type == OrderType::Bid ==> {
                &&& final(self).bids@ == old(self).bids@
                &&& side_fill_post(old(self).asks@, final(self).asks@)
                &&& side_sizes(final(self).asks@) == book_fill(
                    side_sizes(old(self).asks@),
                    old(order).size as int,
                ).0
                &&& final(order).size as int == book_fill(
                    side_sizes(old(self).asks@),
                    old(order).size as int,
                ).1
                &&& fills_model(result.filled_orders@) == book_fills(
                    side_prices(old(self).asks@),
                    side_sizes(old(self).asks@),
                    old(order).size as int,
                )
            },
            old(order).order_type == OrderType::Ask ==> {
                &&& final(self).asks@ == old(self).asks@
                &&& side_fill_post(old(self).bids@, final(self).bids@)
                &&& side_sizes(final(self).bids@) == book_fill(
                    side_sizes(old(self).bids@),
                    old(order).size as int,
                ).0
                &&& final(order).size as int == book_fill(
                    side_sizes(old(self).bids@),
                    old(order).size as int,
                ).1
                &&& fills_model(result.filled_orders@) == book_fills(
                    side_prices(old(self).bids@),
                    side_sizes(old(self).bids@),
                    old(order).size as int,
                )
            },
    {
        match order.order_type {
            OrderType::Ask => fill_side(&mut self.bids, order),
            OrderType::Bid => fill_side(&mut self.asks, order),
        }
    }
}

/// A fill changes only resting sizes: the level structure — prices, queue
/// lengths and each resting order's side — is preserved.
pub open spec fn side_fill_post(old_side: Seq<Limit>, new_side: Seq<Limit>) -> bool {
    &&& new_side.len() == old_side.len()
    &&& forall|i: int| 0 <= i < old_side.len() ==> #[trigger] new_side[i].price == old_side[i].price
    &&& forall|i: int|
        0 <= i < old_side.len() ==> (#[trigger] new_side[i].orders@).len()
            == old_side[i].orders@.len()
    &&& forall|i: int, j: int|
        0 <= i < old_side.len() && 0 <= j < old_side[i].orders@.len()
            ==> (#[trigger] new_side[i].orders@[j]).order_type == old_side[i].orders@[j].order_type
}

/// Posts `order` at `price` on a side kept strictly ascending by price.
fn add_to_side_ascending(side: &mut Vec<Limit>, price: Price, order: Order)
    requires
        limits_wf(old(side)@),
        sorted_ascending(old(side)@),
        price.wf(),
    ensures
        limits_wf(final(side)@),
        sorted_ascending(final(side)@),
        side_after_add(old(side)@, final(side)@, price, order),
{
    let ghost orig = old(side)@;
    let mut i: usize = 0;
    let n = side.len();
    while i < n && side[i].price.lt(&price)
        invariant
            i <= n,
            n == side@.len(),
            side@ == orig,
            limits_wf(orig),
            sorted_ascending(orig),
            price.wf(),
            forall|j: int| 0 <= j < i ==> #[trigger] orig[j].price.spec_units() < price.spec_units(),
        decreases n - i,
    {
        i = i + 1;
    }
    if i < n && side[i].price.units() == price.units() {
        proof {
            lemma_wf_price_units_injective(orig[i as int].price, price);
            assert(orig[i as int].price == price);
            assert(side_has_price(orig, price));
        }
        let level = vstd::std_specs::vec::vec_index_mut(side, i);
        level.orders.push(order);
        proof {
            assert(side_updated_at(orig, side@, i as int, order));
            assert forall|a: int, b: int| 0 <= a < b < side@.len() implies side@[a].price.spec_units()
                < side@[b].price.spec_units() by {
                assert(side@[a].price == orig[a].price);
                assert(side@[b].price == orig[b].price);
            }
        }
    } else {
        proof {
            // The price is new on this side: every level before i is
            // cheaper, and by sortedness every level from i on is dearer.
            assert forall|j: int| 0 <= j < orig.len() implies (#[trigger] orig[j].price)
                != price by {
                if j >= i as int {
                    assert(orig[i as int].price.spec_units() <= orig[j].price.spec_units());
                    assert(orig[j].price.spec_units() != price.spec_units());
                } else {
                    assert(orig[j].price.spec_units() < price.spec_units());
                }
                lemma_wf_price_units_injective(orig[j].price, price);
            }
            assert(!side_has_price(orig, price));
        }
        let mut level = Limit::new(price);
        level.add_order(order);
        side.insert(i, level);
        proof {
            assert(side_inserted_at(orig, side@, i as int, price, order));
            assert forall|a: int, b: int| 0 <= a < b < side@.len() implies side@[a].price.spec_units()
                < side@[b].price.spec_units() by {
                if b < i as int + 1 || a > i as int {
                    if a > i as int {
                        assert(side@[a].price == orig[a - 1].price);
                        assert(side@[b].price == orig[b - 1].price);
                    }
                } else if a == i as int {
                    assert(side@[b].price == orig[b - 1].price);
                    assert(orig[i as int].price.spec_units() <= orig[b - 1].price.spec_units());
                } else if b == i as int {
                    assert(side@[a].price == orig[a].price);
                } else {
                    // a < i < b
                    assert(side@[a].price == orig[a].price);
                    assert(side@[b].price == orig[b - 1].price);
                    assert(orig[i as int].price.spec_units() <= orig[b - 1].price.spec_units());
                }
            }
        }
    }
}

/// Posts `order` at `price` on a side kept strictly descending by price.
fn add_to_side_descending(side: &mut Vec<Limit>, price: Price, order: Order)
    requires
        limits_wf(old(side)@),
        sorted_descending(old(side)@),
        price.wf(),
    ensures
        limits_wf(final(side)@),
        sorted_descending(final(side)@),
        side_after_add(old(side)@, final(side)@, price, order),
{
    let ghost orig = old(side)@;
    let mut i: usize = 0;
    let n = side.len();
    while i < n && price.lt(&side[i].price)
        invariant
            i <= n,
            n == side@.len(),
            side@ == orig,
            limits_wf(orig),
            sorted_descending(orig),
            price.wf(),
            forall|j: int| 0 <= j < i ==> #[trigger] orig[j].price.spec_units() > price.spec_units(),
        decreases n - i,
    {
        i = i + 1;
    }
    if i < n && side[i].price.units() == price.units() {
        proof {
            lemma_wf_price_units_injective(orig[i as int].price, price);
            assert(orig[i as int].price == price);
            assert(side_has_price(orig, price));
        }
        let level = vstd::std_specs::vec::vec_index_mut(side, i);
        level.orders.push(order);
        proof {
            assert(side_updated_at(orig, side@, i as int, order));
            assert forall|a: int, b: int| 0 <= a < b < side@.len() implies side@[a].price.spec_units()
                > side@[b].price.spec_units() by {
                assert(side@[a].price == orig[a].price);
                assert(side@[b].price == orig[b].price);
            }
        }
    } else {
        proof {
            assert forall|j: int| 0 <= j < orig.len() implies (#[trigger] orig[j].price)
                != price by {
                if j >= i as int {
                    assert(orig[i as int].price.spec_units() >= orig[j].price.spec_units());
                    assert(orig[j].price.spec_units() != price.spec_units());
                } else {
                    assert(orig[j].price.spec_units() > price.spec_units());
                }
                lemma_wf_price_units_injective(orig[j].price, price);
            }
            assert(!side_has_price(orig, price));
        }
        let mut level = Limit::new(price);
        level.add_order(order);
        side.insert(i, level);
        proof {
            assert(side_inserted_at(orig, side@, i as int, price, order));
            assert forall|a: int, b: int| 0 <= a < b < side@.len() implies side@[a].price.spec_units()
                > side@[b].price.spec_units() by {
                if b < i as int + 1 || a > i as int {
                    if a > i as int {
                        assert(side@[a].price == orig[a - 1].price);
                        assert(side@[b].price == orig[b - 1].price);
                    }
                } else if a == i as int {
                    assert(side@[b].price == orig[b - 1].price);
                    assert(orig[i as int].price.spec_units() >= orig[b - 1].price.spec_units());
                } else if b == i as int {
                    assert(side@[a].price == orig[a].price);
                } else {
                    assert(side@[a].price == orig[a].price);
                    assert(side@[b].price == orig[b - 1].price);
                    assert(orig[i as int].price.spec_units() >= orig[b - 1].price.spec_units());
                }
            }
        }
    }
}

/// Fills `order` against one side's levels, walking them in stored order
/// (which is priority order for the side) and draining each level FIFO
/// until the order is filled or the side is exhausted. Builds the fill
/// report, including the volume-weighted average fill price.
fn fill_side(side: &mut Vec<Limit>, order: &mut Order) -> (result: FillResult)
    requires
        limits_wf(old(side)@),
    ensures
        limits_wf(final(side)@),
        side_fill_post(old(side)@, final(side)@),
        side_sizes(final(side)@) == book_fill(side_sizes(old(side)@), old(order).size as int).0,
        final(order).size as int == book_fill(side_sizes(old(side)@), old(order).size as int).1,
        final(order).order_type == old(order).order_type,
        result.remaining_size == final(order).size,
        result.filled_size + result.remaining_size == old(order).size,
        fills_model(result.filled_orders@) == book_fills(
            side_prices(old(side)@),
            side_sizes(old(side)@),
            old(order).size as int,
        ),
        fills_size_sum(fills_model(result.filled_orders@)) == result.filled_size as int,
        result.avg_fill_price as int == if result.filled_size == 0 {
            0int
        } else {
            fills_volume(fills_model(result.filled_orders@)) / (result.filled_size as int)
        },
{
    let ghost orig = side@;
    let ghost models = side_sizes(orig);
    let ghost prices = side_prices(orig);
    let ghost incoming = order.size as int;
    let ghost m0 = *order;
    let mut filled_size: u64 = 0;
    let mut total_value: u128 = 0;
    let mut filled_orders: Vec<FilledOrder> = Vec::new();
    let mut i: usize = 0;
    let n = side.len();
    proof {
        assert(side_sizes_valid(models));
        assert(side_prices_valid(prices));
    }
    while i < n
        invariant
            i <= n,
            n == side@.len(),
            side@.len() == orig.len(),
            limits_wf(side@),
            limits_wf(orig),
            side_fill_post(orig, side@),
            models == side_sizes(orig),
            prices == side_prices(orig),
            side_sizes_valid(models),
            side_prices_valid(prices),
            models.len() == orig.len(),
            prices.len() == orig.len(),
            incoming == m0.size as int,
            side_sizes(side@) == book_fill_upto(models, incoming, i as int).0,
            order.size as int == book_fill_upto(models, incoming, i as int).1,
            order.order_type == m0.order_type,
            filled_size as int == incoming - order.size as int,
            fills_model(filled_orders@) == book_fills_upto(prices, models, incoming, i as int),
            total_value as int == fills_volume(fills_model(filled_orders@)),
            total_value as int <= (u64::MAX as int) * (filled_size as int),
        ensures
            i <= n,
            side@.len() == orig.len(),
            limits_wf(side@),
            side_fill_post(orig, side@),
            side_sizes(side@) == book_fill_upto(models, incoming, i as int).0,
            order.size as int == book_fill_upto(models, incoming, i as int).1,
            order.order_type == m0.order_type,
            filled_size as int == incoming - order.size as int,
            fills_model(filled_orders@) == book_fills_upto(prices, models, incoming, i as int),
            total_value as int == fills_volume(fills_model(filled_orders@)),
            total_value as int <= (u64::MAX as int) * (filled_size as int),
            i == n || order.size == 0,
        decreases n - i,
    {
        proof {
            lemma_book_fill_upto_props(models, incoming, i as int);
        }
        let price_units = side[i].price.units();
        let ghost pre_side = side@;
        let ghost pre_rem = order.size as int;
        let ghost pre_fills = filled_orders@;
        let level = vstd::std_specs::vec::vec_index_mut(side, i);
        let level_filled = level.fill_order_with_tracking(order, &mut filled_orders);
        proof {
            let prev = book_fill_upto(models, incoming, i as int);
            assert(order_sizes(pre_side[i as int].orders@) == prev.0[i as int]);
            assert(prev.0[i as int] == models[i as int]);
            let lf = limit_fill(models[i as int], pre_rem);
            assert(side@ == pre_side.update(i as int, *final(level)));
            assert(side_sizes(side@) =~= book_fill_upto(models, incoming, i as int + 1).0) by {
                assert(side_sizes(side@) =~= side_sizes(pre_side).update(
                    i as int,
                    order_sizes(final(level).orders@),
                ));
            }
            assert(order.size as int == book_fill_upto(models, incoming, i as int + 1).1);
            // The fill report entry matches the model's entry for this level.
            let contributed = pre_rem - order.size as int;
            assert(level_filled as int == contributed);
            assert(prices[i as int] == pre_side[i as int].price.spec_units());
            if level_filled > 0 {
                assert(filled_orders@ == pre_fills.push(
                    FilledOrder { price: pre_side[i as int].price, size: level_filled },
                ));
                assert(fills_model(filled_orders@) =~= fills_model(pre_fills).push(
                    (prices[i as int], contributed),
                ));
                assert(book_fills_upto(prices, models, incoming, i as int + 1) =~= fills_model(
                    pre_fills,
                ).push((prices[i as int], contributed)));
            } else {
                assert(filled_orders@ == pre_fills);
                assert(book_fills_upto(prices, models, incoming, i as int + 1) =~= fills_model(
                    pre_fills,
                ));
            }
            // Overflow bounds for the value and size accumulators.
            lemma_book_fill_upto_props(models, incoming, i as int + 1);
            vstd::arithmetic::mul::lemma_mul_inequality(
                price_units as int,
                u64::MAX as int,
                contributed,
            );
            vstd::arithmetic::mul::lemma_mul_nonnegative(price_units as int, contributed);
            lemma_fills_push(fills_model(pre_fills), (prices[i as int], contributed));
            assert((level_filled as int) * (price_units as int) == (price_units as int)
                * contributed);
            assert((price_units as int) * contributed <= (u64::MAX as int) * contributed);
            assert((u64::MAX as int) * contributed <= (u64::MAX as int) * (u64::MAX as int));
            assert(filled_size as int + contributed <= incoming);
            assert(total_value as int + (price_units as int) * contributed <= (u64::MAX as int) * (
            filled_size as int + contributed));
        }
        filled_size = filled_size + level_filled;
        total_value = total_value + (level_filled as u128) * (price_units as u128);
        i = i + 1;
        if order.is_filled() {
            break;
        }
    }
    proof {
        if i < n {
            lemma_book_fill_upto_stable(prices, models, incoming, i as int, n as int);
        }
        lemma_book_fills_upto_props(prices, models, incoming, n as int);
        assert(book_fill_upto(models, incoming, n as int) == book_fill(models, incoming));
        assert(book_fills_upto(prices, models, incoming, n as int) == book_fills(
            prices,
            models,
            incoming,
        ));
    }
    let avg_fill_price: u64 = if filled_size > 0 {
        proof {
            // The weighted average of prices that each fit a u64 fits a u64.
            vstd::arithmetic::div_mod::lemma_div_is_ordered(
                total_value as int,
                (u64::MAX as int) * (filled_size as int),
                filled_size as int,
            );
            vstd::arithmetic::div_mod::lemma_div_by_multiple(u64::MAX as int, filled_size as int);
        }
        (total_value / (filled_size as u128)) as u64
    } else {
        0
    };
    FillResult { filled_size, remaining_size: order.size, avg_fill_price, filled_orders }
}

/// A deep copy of a queue of orders.
fn clone_orders(orders: &Vec<Order>) -> (r: Vec<Order>)
    ensures
        r@ == orders@,
{
    let mut r: Vec<Order> = Vec::new();
    let mut i: usize = 0;
    let n = orders.len();
    while i < n
        invariant
            i <= n,
            n == orders@.len(),
            r@ == orders@.take(i as int),
        decreases n - i,
    {
        r.push(orders[i]);
        proof {
            assert(orders@.take(i as int).push(orders@[i as int]) =~= orders@.take(i as int + 1));
        }
        i = i + 1;
    }
    proof {
        assert(orders@.take(n as int) =~= orders@);
    }
    r
}

/// A deep copy of a side's levels.
fn clone_limits(side: &Vec<Limit>) -> (r: Vec<Limit>)
    ensures
        limits_equiv(r@, side@),
{
    let mut r: Vec<Limit> = Vec::new();
    let mut i: usize = 0;
    let n = side.len();
    while i < n
        invariant
            i <= n,
            n == side@.len(),
            r@.len() == i,
            forall|j: int| 0 <= j < i ==> #[trigger] r@[j].price == side@[j].price,
            forall|j: int| 0 <= j < i ==> #[trigger] r@[j].orders@ == side@[j].orders@,
        decreases n - i,
    {
        let orders = clone_orders(&side[i].orders);
        r.push(Limit { price: side[i].price, orders });
        i = i + 1;
    }
    r
}

} // verus!
