use vstd::prelude::*;

use crate::assoc::{
    assoc_map, fits_i32, keys_unique, lemma_assoc_absent, lemma_assoc_lookup, lemma_assoc_push,
    lemma_assoc_update,
};
use crate::broker::Broker;
use crate::order::{
    ids_below, is_side, orders_view, place, remove_id, Order, OrderType, OrderView,
};

verus! {

/// A trade: `quantity` units of `symbol` that changed hands at `price`
/// between a buy order and a sell order.
#[derive(Clone, Debug, PartialEq, Eq, Hash)]
pub struct Trade {
    pub symbol: String,
    pub price: i32,
    pub quantity: i32,
    pub buy_order_id: i32,
    pub sell_order_id: i32,
}

/// The mathematical value of a `Trade`.
pub struct TradeView {
    pub symbol: Seq<char>,
    pub price: i32,
    pub quantity: i32,
    pub buy_order_id: i32,
    pub sell_order_id: i32,
}

impl View for Trade {
    type V = TradeView;

    open spec fn view(&self) -> TradeView {
        TradeView {
            symbol: self.symbol@,
            price: self.price,
            quantity: self.quantity,
            buy_order_id: self.buy_order_id,
            sell_order_id: self.sell_order_id,
        }
    }
}

impl Trade {
    /// A copy of this trade, field by field.
    pub fn duplicate(&self) -> (r: Trade)
        ensures
            r@ == self@,
    {
        Trade {
            symbol: self.symbol.clone(),
            price: self.price,
            quantity: self.quantity,
            buy_order_id: self.buy_order_id,
            sell_order_id: self.sell_order_id,
        }
    }
}

/// The views of a sequence of trades, in the same positions.
pub open spec fn trades_view(s: Seq<Trade>) -> Seq<TradeView> {
    s.map_values(|t: Trade| t@)
}

/// Holds of the trades in `symbol`.
pub open spec fn of_symbol(symbol: Seq<char>) -> spec_fn(TradeView) -> bool {
    |t: TradeView| t.symbol == symbol
}

/// Holds of the trades in which order `id` took part, on either side.
pub open spec fn of_order(id: i32) -> spec_fn(TradeView) -> bool {
    |t: TradeView| t.buy_order_id == id || t.sell_order_id == id
}

/// The price of the last trade in `symbol`, if there is one.
pub open spec fn last_price(trades: Seq<TradeView>, symbol: Seq<char>) -> Option<i32> {
    let s = trades.filter(of_symbol(symbol));
    if s.len() == 0 {
        None
    } else {
        Some(s.last().price)
    }
}

/// The state that a matching pass reads and changes: the ledger's balances
/// and open orders, and the engine's holdings and trade log.
pub struct Market {
    pub balances: Map<Seq<char>, i32>,
    pub orders: Seq<OrderView>,
    pub holdings: Map<(Seq<char>, Seq<char>), i32>,
    pub trades: Seq<TradeView>,
}

/// The market that `ex` and `br` hold together.
pub open spec fn market(ex: &Exchange, br: &Broker) -> Market {
    Market { balances: br.balances(), orders: br.orders(), holdings: ex.holdings(), trades: ex.log() }
}

/// The quantity that a pair of orders settles: the smaller of the two.
pub open spec fn executed(b: OrderView, s: OrderView) -> int {
    if b.quantity <= s.quantity {
        b.quantity as int
    } else {
        s.quantity as int
    }
}

/// What the buyer pays for a pair: the executed quantity at the buy price.
pub open spec fn trade_cost(b: OrderView, s: OrderView) -> int {
    executed(b, s) * b.price
}

/// The balances after the buyer is debited and the seller credited.
pub open spec fn settled_balances(m: Market, b: OrderView, s: OrderView) -> Map<Seq<char>, i32> {
    let bal1 = m.balances.insert(b.user, (m.balances[b.user] - trade_cost(b, s)) as i32);
    if bal1.contains_key(s.user) {
        bal1.insert(s.user, (bal1[s.user] + trade_cost(b, s)) as i32)
    } else {
        bal1
    }
}

/// The holdings after the buyer is credited the executed quantity.
pub open spec fn buyer_holdings(m: Market, b: OrderView, s: OrderView) -> Map<(Seq<char>, Seq<char>), i32> {
    m.holdings.insert(
        (b.user, b.symbol),
        (holding_or_zero(m.holdings, (b.user, b.symbol)) + executed(b, s)) as i32,
    )
}

/// The holdings after the buyer is credited and the seller debited.
pub open spec fn settled_holdings(m: Market, b: OrderView, s: OrderView) -> Map<(Seq<char>, Seq<char>), i32> {
    let h1 = buyer_holdings(m, b, s);
    h1.insert((s.user, b.symbol), (holding_or_zero(h1, (s.user, b.symbol)) - executed(b, s)) as i32)
}

/// Every amount that settling the pair computes is a value of `i32`.
pub open spec fn settle_fits(m: Market, b: OrderView, s: OrderView) -> bool {
    let e = executed(b, s);
    let bal1 = m.balances.insert(b.user, (m.balances[b.user] - trade_cost(b, s)) as i32);
    &&& fits_i32(trade_cost(b, s))
    &&& fits_i32(-trade_cost(b, s))
    &&& fits_i32(-e)
    &&& fits_i32(b.quantity - e)
    &&& fits_i32(s.quantity - e)
    &&& fits_i32(m.balances[b.user] - trade_cost(b, s))
    &&& (bal1.contains_key(s.user) ==> fits_i32(bal1[s.user] + trade_cost(b, s)))
    &&& fits_i32(holding_or_zero(m.holdings, (b.user, b.symbol)) + e)
    &&& fits_i32(holding_or_zero(buyer_holdings(m, b, s), (s.user, b.symbol)) - e)
}

/// What is left of an order after `e` units of it were executed.
pub open spec fn residual(o: OrderView, side: OrderType, e: int) -> OrderView {
    OrderView {
        id: o.id,
        user: o.user,
        side: side,
        symbol: o.symbol,
        price: o.price,
        quantity: (o.quantity - e) as i32,
    }
}

/// The open orders after both orders of the pair are taken out and what is
/// left of each is put back under its id.
pub open spec fn settled_orders(m: Market, b: OrderView, s: OrderView) -> Seq<OrderView> {
    let e = executed(b, s);
    let o1 = remove_id(remove_id(m.orders, b.id), s.id);
    let o2 = if b.quantity - e > 0 {
        place(o1, residual(b, OrderType::Buy, e))
    } else {
        o1
    };
    if s.quantity - e > 0 {
        place(o2, residual(s, OrderType::Sell, e))
    } else {
        o2
    }
}

/// The trade that settling the pair records.
pub open spec fn trade_of(b: OrderView, s: OrderView) -> TradeView {
    TradeView {
        symbol: b.symbol,
        price: b.price,
        quantity: executed(b, s) as i32,
        buy_order_id: b.id,
        sell_order_id: s.id,
    }
}

/// The market after the pair is settled.
pub open spec fn settle(m: Market, b: OrderView, s: OrderView) -> Market {
    Market {
        balances: settled_balances(m, b, s),
        orders: settled_orders(m, b, s),
        holdings: settled_holdings(m, b, s),
        trades: m.trades.push(trade_of(b, s)),
    }
}

/// `m` with order `id` taken out of the open set.
pub open spec fn evict(m: Market, id: i32) -> Market {
    Market { balances: m.balances, orders: remove_id(m.orders, id), holdings: m.holdings, trades: m.trades }
}

/// One attempt to trade buy order `b` against sell order `s`: whether the
/// pass may go on, and the market after it.
///
/// Orders in different symbols fail. A buyer without the cash for the
/// executed quantity at the buy price has the buy order evicted; a seller
/// holding less than the whole sell quantity has the sell order evicted;
/// both fail. A pair whose settlement leaves the range of `i32` fails and
/// changes nothing. Otherwise the pair is settled, and the pass may go on
/// where a positive quantity was executed.
pub open spec fn step(m: Market, b: OrderView, s: OrderView) -> (bool, Market) {
    if b.symbol != s.symbol {
        (false, m)
    } else if !m.balances.contains_key(b.user) || m.balances[b.user] < trade_cost(b, s) {
        (false, evict(m, b.id))
    } else if !m.holdings.contains_key((s.user, s.symbol)) || m.holdings[(s.user, s.symbol)] < s.quantity {
        (false, evict(m, s.id))
    } else if !settle_fits(m, b, s) {
        (false, m)
    } else {
        (executed(b, s) > 0, settle(m, b, s))
    }
}

/// Whether `a` stays ahead of `o` when `o` is sorted in after it: by
/// ascending price, or by descending price.
pub open spec fn goes_before(a: OrderView, o: OrderView, ascending: bool) -> bool {
    if ascending {
        a.price <= o.price
    } else {
        a.price >= o.price
    }
}

/// The position at which `o` is sorted into `s`: after the leading orders
/// that stay ahead of it.
pub open spec fn insertion_point(s: Seq<OrderView>, o: OrderView, ascending: bool) -> int
    decreases s.len(),
{
    if s.len() == 0 {
        0
    } else if goes_before(s[0], o, ascending) {
        1 + insertion_point(s.subrange(1, s.len() as int), o, ascending)
    } else {
        0
    }
}

/// `s` sorted by price, ascending or descending; orders of equal price keep
/// their order.
pub open spec fn sort_by_price(s: Seq<OrderView>, ascending: bool) -> Seq<OrderView>
    decreases s.len(),
{
    if s.len() == 0 {
        s
    } else {
        let r = sort_by_price(s.drop_last(), ascending);
        r.insert(insertion_point(r, s.last(), ascending), s.last())
    }
}

/// The rest of a matching pass from position `i` of both lists: while the
/// buy price at `i` reaches the sell price at `i`, the pair is tried, and
/// the pass goes on only where the attempt executed a trade.
pub open spec fn walk(m: Market, buys: Seq<OrderView>, sells: Seq<OrderView>, i: int) -> Market
    decreases buys.len() - i,
{
    if 0 <= i < buys.len() && i < sells.len() && buys[i].price >= sells[i].price {
        let r = step(m, buys[i], sells[i]);
        if r.0 {
            walk(r.1, buys, sells, i + 1)
        } else {
            r.1
        }
    } else {
        m
    }
}

/// The buy orders of `m`, least aggressive first.
pub open spec fn buy_list(m: Market) -> Seq<OrderView> {
    sort_by_price(m.orders.filter(is_side(OrderType::Buy)), true)
}

/// The sell orders of `m`, most aggressive first.
pub open spec fn sell_list(m: Market) -> Seq<OrderView> {
    sort_by_price(m.orders.filter(is_side(OrderType::Sell)), false)
}

/// A whole matching pass over the open orders of `m`.
pub open spec fn matching_pass(m: Market) -> Market {
    walk(m, buy_list(m), sell_list(m), 0)
}

/// The quantity of one symbol that one user holds.
pub struct Holding {
    pub user_id: String,
    pub symbol: String,
    pub quantity: i32,
}

impl Holding {
    /// A copy of this holding, field by field.
    pub fn duplicate(&self) -> (r: Holding)
        ensures
            r.user_id@ == self.user_id@,
            r.symbol@ == self.symbol@,
            r.quantity == self.quantity,
    {
        Holding { user_id: self.user_id.clone(), symbol: self.symbol.clone(), quantity: self.quantity }
    }
}

/// Holds of the entries of `user`.
pub open spec fn of_user(user: Seq<char>) -> spec_fn(((Seq<char>, Seq<char>), i32)) -> bool {
    |e: ((Seq<char>, Seq<char>), i32)| e.0.0 == user
}

/// The holdings as an association list from (user, symbol) to quantity.
pub open spec fn holding_pairs(s: Seq<Holding>) -> Seq<((Seq<char>, Seq<char>), i32)> {
    s.map_values(|h: Holding| ((h.user_id@, h.symbol@), h.quantity))
}

/// The quantity held under `key`, 0 where there is no entry.
pub open spec fn holding_or_zero(h: Map<(Seq<char>, Seq<char>), i32>, key: (Seq<char>, Seq<char>)) -> int {
    if h.contains_key(key) {
        h[key] as int
    } else {
        0
    }
}

/// The matching engine: asset holdings and the log of trades.
pub struct Exchange {
    /// One entry per (user, symbol) pair.
    pub asset_balances: Vec<Holding>,
    /// Every trade so far, oldest first.
    pub trades: Vec<Trade>,
}

impl Exchange {
    /// The quantity held by each (user, symbol) pair that has an entry.
    pub open spec fn holdings(&self) -> Map<(Seq<char>, Seq<char>), i32> {
        assoc_map(holding_pairs(self.asset_balances@))
    }

    /// The trade log.
    pub open spec fn log(&self) -> Seq<TradeView> {
        trades_view(self.trades@)
    }

    /// One entry per (user, symbol) pair.
    pub open spec fn wf(&self) -> bool {
        keys_unique(holding_pairs(self.asset_balances@))
    }

    /// An engine with no holdings and no trades.
    pub fn new() -> (r: Exchange)
        ensures
            r.wf(),
            r.holdings() == Map::<(Seq<char>, Seq<char>), i32>::empty(),
            forall|key: (Seq<char>, Seq<char>)| !r.holdings().contains_key(key),
            r.log() == Seq::<TradeView>::empty(),
    {
        let r = Exchange { asset_balances: Vec::new(), trades: Vec::new() };
        assert(holding_pairs(r.asset_balances@) =~= Seq::empty());
        assert(r.log() =~= Seq::empty());
        r
    }

    /// The trades in `symbol`, oldest first.
    pub fn get_asset_trades(&self, symbol: &str) -> (r: Vec<Trade>)
        ensures
            trades_view(r@) == self.log().filter(of_symbol(symbol@)),
    {
        let sym = symbol.to_owned();
        let mut r: Vec<Trade> = Vec::new();
        let mut i: usize = 0;
        while i < self.trades.len()
            invariant
                sym@ == symbol@,
                i <= self.trades@.len(),
                trades_view(r@) == self.log().take(i as int).filter(of_symbol(symbol@)),
            decreases self.trades@.len() - i,
        {
            let ghost before = r@;
            let ghost pre = self.log().take(i as int);
            if self.trades[i].symbol == sym {
                let t = self.trades[i].duplicate();
                r.push(t);
                assert(trades_view(r@) =~= trades_view(before).push(t@));
            }
            proof {
                let next = self.log().take(i as int + 1);
                assert(next.drop_last() =~= pre);
                assert(next.last() == self.trades@[i as int]@);
                reveal(Seq::filter);
            }
            i += 1;
        }
        assert(self.log().take(i as int) =~= self.log());
        r
    }

    /// The price of the last trade in `symbol`, or `None` where there is
    /// none.
    pub fn get_asset_price(&self, symbol: &str) -> (r: Option<i32>)
        ensures
            r == last_price(self.log(), symbol@),
    {
        let asset_trades = self.get_asset_trades(symbol);
        let n = asset_trades.len();
        if n == 0 {
            None
        } else {
            assert(trades_view(asset_trades@).last() == asset_trades@[n - 1]@);
            Some(asset_trades[n - 1].price)
        }
    }

    /// The trades in which order `order_id` took part, as buyer or seller,
    /// oldest first.
    pub fn find_trades_for_order(&self, order_id: i32) -> (r: Vec<Trade>)
        ensures
            trades_view(r@) == self.log().filter(of_order(order_id)),
    {
        let mut r: Vec<Trade> = Vec::new();
        let mut i: usize = 0;
        while i < self.trades.len()
            invariant
                i <= self.trades@.len(),
                trades_view(r@) == self.log().take(i as int).filter(of_order(order_id)),
            decreases self.trades@.len() - i,
        {
            let ghost before = r@;
            let ghost pre = self.log().take(i as int);
            if self.trades[i].buy_order_id == order_id || self.trades[i].sell_order_id == order_id {
                let t = self.trades[i].duplicate();
                r.push(t);
                assert(trades_view(r@) =~= trades_view(before).push(t@));
            }
            proof {
                let next = self.log().take(i as int + 1);
                assert(next.drop_last() =~= pre);
                assert(next.last() == self.trades@[i as int]@);
                reveal(Seq::filter);
            }
            i += 1;
        }
        assert(self.log().take(i as int) =~= self.log());
        r
    }

    /// The entries of `user_id`, one per symbol, in the order they were
    /// created.
    pub fn holdings_of(&self, user_id: &String) -> (r: Vec<Holding>)
        ensures
            holding_pairs(r@) == holding_pairs(self.asset_balances@).filter(of_user(user_id@)),
    {
        let ghost all = holding_pairs(self.asset_balances@);
        let mut r: Vec<Holding> = Vec::new();
        let mut i: usize = 0;
        while i < self.asset_balances.len()
            invariant
                all == holding_pairs(self.asset_balances@),
                i <= self.asset_balances@.len(),
                holding_pairs(r@) == all.take(i as int).filter(of_user(user_id@)),
            decreases self.asset_balances@.len() - i,
        {
            let ghost before = r@;
            if self.asset_balances[i].user_id == *user_id {
                let h = self.asset_balances[i].duplicate();
                r.push(h);
                assert(holding_pairs(r@) =~= holding_pairs(before).push(((h.user_id@, h.symbol@), h.quantity)));
            }
            proof {
                let next = all.take(i as int + 1);
                assert(next.drop_last() =~= all.take(i as int));
                assert(next.last() == all[i as int]);
                reveal(Seq::filter);
            }
            i += 1;
        }
        assert(all.take(i as int) =~= all);
        r
    }

    /// The position of the entry of (`user_id`, `symbol`), if there is one.
    fn find_holding(&self, user_id: &String, symbol: &String) -> (r: Option<usize>)
        requires
            self.wf(),
        ensures
            match r {
                Some(k) => k < self.asset_balances@.len()
                    && self.asset_balances@[k as int].user_id@ == user_id@
                    && self.asset_balances@[k as int].symbol@ == symbol@
                    && self.holdings().contains_key((user_id@, symbol@))
                    && self.holdings()[(user_id@, symbol@)] == self.asset_balances@[k as int].quantity,
                None => !self.holdings().contains_key((user_id@, symbol@)),
            },
    {
        let mut i: usize = 0;
        while i < self.asset_balances.len()
            invariant
                self.wf(),
                i <= self.asset_balances@.len(),
                forall|j: int| 0 <= j < i ==> #[trigger] holding_pairs(self.asset_balances@)[j].0 != (user_id@, symbol@),
            decreases self.asset_balances@.len() - i,
        {
            let ghost p = holding_pairs(self.asset_balances@);
            if self.asset_balances[i].user_id == *user_id && self.asset_balances[i].symbol == *symbol {
                proof {
                    assert(p[i as int].0 == (user_id@, symbol@));
                    lemma_assoc_lookup(p, i as int);
                }
                return Some(i);
            }
            assert(p[i as int].0 != (user_id@, symbol@));
            i += 1;
        }
        proof {
            lemma_assoc_absent(holding_pairs(self.asset_balances@), (user_id@, symbol@));
        }
        None
    }

    /// The quantity of `symbol` that `user_id` holds, or `None` where the
    /// pair has no entry.
    pub fn get_asset_balance(&self, user_id: &String, symbol: &str) -> (r: Option<i32>)
        requires
            self.wf(),
        ensures
            r == (if self.holdings().contains_key((user_id@, symbol@)) {
                Some(self.holdings()[(user_id@, symbol@)])
            } else {
                None::<i32>
            }),
    {
        let sym = symbol.to_owned();
        match self.find_holding(user_id, &sym) {
            Some(k) => Some(self.asset_balances[k].quantity),
            None => None,
        }
    }

    /// Adds `delta` to the quantity of `symbol` that `user_id` holds,
    /// starting from 0 where the pair has no entry yet.
    pub fn update_asset_balance(&mut self, symbol: String, user_id: &String, delta: i32)
        requires
            old(self).wf(),
            fits_i32(holding_or_zero(old(self).holdings(), (user_id@, symbol@)) + delta),
        ensures
            final(self).wf(),
            final(self).holdings() == old(self).holdings().insert(
                (user_id@, symbol@),
                (holding_or_zero(old(self).holdings(), (user_id@, symbol@)) + delta) as i32,
            ),
            final(self).log() == old(self).log(),
    {
        let ghost p = holding_pairs(self.asset_balances@);
        match self.find_holding(user_id, &symbol) {
            Some(k) => {
                let q = self.asset_balances[k].quantity;
                let u = self.asset_balances[k].user_id.clone();
                self.asset_balances.set(k, Holding { user_id: u, symbol, quantity: q + delta });
                proof {
                    lemma_assoc_update(p, k as int, (q + delta) as i32);
                    assert(holding_pairs(self.asset_balances@) =~= p.update(
                        k as int,
                        (p[k as int].0, (q + delta) as i32),
                    ));
                }
            },
            None => {
                let ghost key = (user_id@, symbol@);
                self.asset_balances.push(Holding { user_id: user_id.clone(), symbol, quantity: delta });
                proof {
                    assert(holding_pairs(self.asset_balances@) =~= p.push((key, delta)));
                    lemma_assoc_push(p, (key, delta));
                    assert forall|j: int| 0 <= j < p.len() implies #[trigger] p[j].0 != key by {
                        if p[j].0 == key {
                            lemma_assoc_lookup(p, j);
                        }
                    }
                }
            },
        }
    }
    /// Runs one matching pass over the open orders of `broker`, as
    /// `matching_pass` states.
    pub fn match_orders(&mut self, broker: &mut Broker)
        requires
            old(self).wf(),
            old(broker).wf(),
        ensures
            final(self).wf(),
            final(broker).wf(),
            final(broker).next_id() == old(broker).next_id(),
            market(final(self), final(broker)) == matching_pass(market(old(self), old(broker))),
    {
        let ghost m0 = market(self, broker);
        let (buys0, sells0) = broker.open_orders_by_side();
        let buys = sort_orders(buys0, true);
        let sells = sort_orders(sells0, false);
        let ghost bl = orders_view(buys@);
        let ghost sl = orders_view(sells@);
        assert(bl == buy_list(m0));
        assert(sl == sell_list(m0));
        let ghost target = matching_pass(m0);
        let ghost max_id = broker.next_id();
        proof {
            broker.lemma_wf();
            lemma_list_ids_below(m0.orders, max_id, OrderType::Buy, true);
            lemma_list_ids_below(m0.orders, max_id, OrderType::Sell, false);
        }
        let mut go = true;
        let mut i: usize = 0;
        while go && i < buys.len() && i < sells.len()
            invariant
                self.wf(),
                broker.wf(),
                broker.next_id() == max_id,
                ids_below(bl, max_id),
                ids_below(sl, max_id),
                bl == orders_view(buys@),
                sl == orders_view(sells@),
                i <= buys@.len(),
                if go {
                    walk(market(self, broker), bl, sl, i as int) == target
                } else {
                    market(self, broker) == target
                },
            decreases buys@.len() - i + (if go { 1int } else { 0int }),
        {
            assert(bl[i as int] == buys@[i as int]@);
            assert(sl[i as int] == sells@[i as int]@);
            if buys[i].price >= sells[i].price {
                if self.execute_trade(&buys[i], &sells[i], broker) {
                    i += 1;
                } else {
                    go = false;
                }
            } else {
                go = false;
            }
        }
    }

    /// Attempts one trade between `buy_order` and `sell_order`, as `step`
    /// states.
    fn execute_trade(&mut self, buy_order: &Order, sell_order: &Order, broker: &mut Broker) -> (r: bool)
        requires
            old(self).wf(),
            old(broker).wf(),
            0 <= buy_order.id < old(broker).next_id(),
            0 <= sell_order.id < old(broker).next_id(),
        ensures
            final(self).wf(),
            final(broker).wf(),
            final(broker).next_id() == old(broker).next_id(),
            (r, market(final(self), final(broker))) == step(market(old(self), old(broker)), buy_order@, sell_order@),
    {
        let ghost m = market(self, broker);
        let ghost b = buy_order@;
        let ghost s = sell_order@;
        if !(buy_order.symbol == sell_order.symbol) {
            return false;
        }
        let e: i32 = if buy_order.quantity <= sell_order.quantity {
            buy_order.quantity
        } else {
            sell_order.quantity
        };
        let e64 = e as i64;
        let p64 = buy_order.price as i64;
        assert(-0x4000_0000_0000_0000 <= e64 * p64 <= 0x4000_0000_0000_0000) by (nonlinear_arith)
            requires
                i32::MIN <= e64 <= i32::MAX,
                i32::MIN <= p64 <= i32::MAX,
        ;
        let cost: i64 = e64 * p64;
        assert(cost == trade_cost(b, s)) by (nonlinear_arith)
            requires
                e64 == executed(b, s),
                cost == e64 * p64,
                p64 == buy_order.price,
                b.price == buy_order.price,
        ;
        let bb: i32 = match broker.get_balance(buy_order.user_id.as_str()) {
            Some(x) => x,
            None => {
                broker.cancel_order(buy_order.id);
                return false;
            },
        };
        if (bb as i64) < cost {
            broker.cancel_order(buy_order.id);
            return false;
        }
        let sh: i32 = match self.get_asset_balance(&sell_order.user_id, sell_order.symbol.as_str()) {
            Some(x) => x,
            None => {
                broker.cancel_order(sell_order.id);
                return false;
            },
        };
        if sh < sell_order.quantity {
            broker.cancel_order(sell_order.id);
            return false;
        }
        let same_user = buy_order.user_id == sell_order.user_id;
        let buyer_new: i64 = bb as i64 - cost;
        let seller_now: Option<i64> = if same_user {
            Some(buyer_new)
        } else {
            match broker.get_balance(sell_order.user_id.as_str()) {
                Some(x) => Some(x as i64),
                None => None,
            }
        };
        let buyer_hold: i64 = match self.get_asset_balance(&buy_order.user_id, buy_order.symbol.as_str()) {
            Some(x) => x as i64,
            None => 0,
        };
        let buyer_hold_new = buyer_hold + e64;
        let seller_hold_now: i64 = if same_user {
            buyer_hold_new
        } else {
            sh as i64
        };
        let rem_buy = buy_order.quantity as i64 - e64;
        let rem_sell = sell_order.quantity as i64 - e64;
        let seller_fits = match seller_now {
            Some(x) => in_i32(x + cost),
            None => true,
        };
        if !(in_i32(cost) && in_i32(-cost) && in_i32(-e64) && in_i32(rem_buy) && in_i32(rem_sell)
            && in_i32(buyer_new) && seller_fits && in_i32(buyer_hold_new) && in_i32(seller_hold_now - e64)) {
            return false;
        }
        assert(settle_fits(m, b, s));
        broker.update_balance(buy_order.user_id.as_str(), (-cost) as i32);
        broker.update_balance(sell_order.user_id.as_str(), cost as i32);
        assert(broker.balances() == settled_balances(m, b, s));
        self.update_asset_balance(buy_order.symbol.clone(), &buy_order.user_id, e);
        self.update_asset_balance(buy_order.symbol.clone(), &sell_order.user_id, (-e64) as i32);
        assert(self.holdings() == settled_holdings(m, b, s));
        let trade = Trade {
            symbol: buy_order.symbol.clone(),
            price: buy_order.price,
            quantity: e,
            buy_order_id: buy_order.id,
            sell_order_id: sell_order.id,
        };
        let ghost log0 = self.log();
        self.trades.push(trade);
        assert(self.log() =~= log0.push(trade_of(b, s)));
        broker.cancel_order(buy_order.id);
        broker.cancel_order(sell_order.id);
        if rem_buy > 0 {
            broker.place_order(Order {
                id: buy_order.id,
                user_id: buy_order.user_id.clone(),
                order_type: OrderType::Buy,
                symbol: buy_order.symbol.clone(),
                price: buy_order.price,
                quantity: rem_buy as i32,
            });
        }
        if rem_sell > 0 {
            broker.place_order(Order {
                id: sell_order.id,
                user_id: sell_order.user_id.clone(),
                order_type: OrderType::Sell,
                symbol: sell_order.symbol.clone(),
                price: sell_order.price,
                quantity: rem_sell as i32,
            });
        }
        assert(broker.orders() == settled_orders(m, b, s));
        e > 0
    }
}

/// Whether `a` stays ahead of `o` when `o` is sorted in after it.
fn stays_ahead(a: &Order, o: &Order, ascending: bool) -> (r: bool)
    ensures
        r == goes_before(a@, o@, ascending),
{
    if ascending {
        a.price <= o.price
    } else {
        a.price >= o.price
    }
}

/// `v` sorted by price, ascending or descending; orders of equal price
/// keep their order.
fn sort_orders(v: Vec<Order>, ascending: bool) -> (r: Vec<Order>)
    ensures
        orders_view(r@) == sort_by_price(orders_view(v@), ascending),
{
    let ghost all = orders_view(v@);
    let mut r: Vec<Order> = Vec::new();
    let mut i: usize = 0;
    while i < v.len()
        invariant
            all == orders_view(v@),
            i <= v@.len(),
            r@.len() == i,
            orders_view(r@) == sort_by_price(all.take(i as int), ascending),
        decreases v@.len() - i,
    {
        let o = v[i].duplicate();
        let ghost rv = orders_view(r@);
        let mut k: usize = 0;
        assert(rv.subrange(0, rv.len() as int) =~= rv);
        while k < r.len() && stays_ahead(&r[k], &o, ascending)
            invariant
                rv == orders_view(r@),
                k <= r@.len(),
                insertion_point(rv, o@, ascending) == k + insertion_point(
                    rv.subrange(k as int, rv.len() as int),
                    o@,
                    ascending,
                ),
            decreases r@.len() - k,
        {
            proof {
                let tail = rv.subrange(k as int, rv.len() as int);
                assert(tail[0] == rv[k as int]);
                assert(tail.subrange(1, tail.len() as int) =~= rv.subrange(k + 1, rv.len() as int));
            }
            k += 1;
        }
        proof {
            let tail = rv.subrange(k as int, rv.len() as int);
            if k < r@.len() {
                assert(tail[0] == rv[k as int]);
            }
            let next = all.take(i as int + 1);
            assert(next.drop_last() =~= all.take(i as int));
            assert(next.last() == o@);
        }
        r.insert(k, o);
        proof {
            assert(orders_view(r@) =~= rv.insert(k as int, o@));
        }
        i += 1;
    }
    assert(all.take(i as int) =~= all);
    r
}

/// `s` is in price order: ascending, or descending.
pub open spec fn sorted_by_price(s: Seq<OrderView>, ascending: bool) -> bool {
    forall|i: int, j: int| 0 <= i < j < s.len() ==> goes_before(#[trigger] s[i], #[trigger] s[j], ascending)
}

proof fn lemma_insertion_point(s: Seq<OrderView>, o: OrderView, ascending: bool)
    ensures
        0 <= insertion_point(s, o, ascending) <= s.len(),
        forall|j: int| 0 <= j < insertion_point(s, o, ascending) ==> goes_before(#[trigger] s[j], o, ascending),
        insertion_point(s, o, ascending) < s.len() ==> !goes_before(s[insertion_point(s, o, ascending)], o, ascending),
    decreases s.len(),
{
    if s.len() > 0 && goes_before(s[0], o, ascending) {
        let t = s.subrange(1, s.len() as int);
        lemma_insertion_point(t, o, ascending);
        assert forall|j: int| 0 <= j < insertion_point(s, o, ascending) implies goes_before(#[trigger] s[j], o, ascending) by {
            if j > 0 {
                assert(s[j] == t[j - 1]);
            }
        }
    }
}

/// Sorting by price keeps the same orders, each as often, and puts them in
/// price order.
pub proof fn lemma_sort_by_price(s: Seq<OrderView>, ascending: bool)
    ensures
        sorted_by_price(sort_by_price(s, ascending), ascending),
        sort_by_price(s, ascending).to_multiset() == s.to_multiset(),
    decreases s.len(),
{
    broadcast use vstd::seq_lib::to_multiset_build, vstd::seq_lib::to_multiset_insert;

    if s.len() > 0 {
        let r = sort_by_price(s.drop_last(), ascending);
        let x = s.last();
        lemma_sort_by_price(s.drop_last(), ascending);
        lemma_insertion_point(r, x, ascending);
        let k = insertion_point(r, x, ascending);
        let t = r.insert(k, x);
        assert forall|i: int, j: int| 0 <= i < j < t.len() implies goes_before(#[trigger] t[i], #[trigger] t[j], ascending) by {
            if j < k {
                assert(goes_before(r[i], r[j], ascending));
            } else if j == k {
                assert(goes_before(r[i], x, ascending));
            } else if i < k {
                assert(goes_before(r[i], r[j - 1], ascending));
            } else if i == k {
                assert(!goes_before(r[k], x, ascending));
                if j - 1 > k {
                    assert(goes_before(r[k], r[j - 1], ascending));
                }
            } else {
                assert(goes_before(r[i - 1], r[j - 1], ascending));
            }
        }
        assert(s.drop_last().push(x) =~= s);
    }
}

/// Every order of either list of a pass is an open order of the market.
proof fn lemma_list_in_orders(orders: Seq<OrderView>, side: OrderType, ascending: bool, k: int)
    requires
        0 <= k < sort_by_price(orders.filter(is_side(side)), ascending).len(),
    ensures
        orders.contains(sort_by_price(orders.filter(is_side(side)), ascending)[k]),
{
    broadcast use vstd::seq_lib::to_multiset_contains;

    let f = orders.filter(is_side(side));
    let t = sort_by_price(f, ascending);
    lemma_sort_by_price(f, ascending);
    assert(t.contains(t[k]));
    assert(t.to_multiset().count(t[k]) > 0);
    assert(f.contains(t[k]));
    orders.lemma_filter_contains_rev(is_side(side), t[k]);
}

/// The orders of either list of a pass carry ids that the ledger has issued.
proof fn lemma_list_ids_below(orders: Seq<OrderView>, n: i32, side: OrderType, ascending: bool)
    requires
        ids_below(orders, n),
    ensures
        ids_below(sort_by_price(orders.filter(is_side(side)), ascending), n),
{
    let t = sort_by_price(orders.filter(is_side(side)), ascending);
    assert forall|k: int| 0 <= k < t.len() implies 0 <= #[trigger] t[k].id < n by {
        lemma_list_in_orders(orders, side, ascending, k);
        let j = choose|j: int| 0 <= j < orders.len() && orders[j] == t[k];
        assert(0 <= orders[j].id < n);
    }
}

/// Some order of `list` belongs to the user and symbol of `key`.
pub open spec fn trader_of(list: Seq<OrderView>, key: (Seq<char>, Seq<char>)) -> bool {
    exists|k: int| 0 <= k < list.len() && (#[trigger] list[k]).user == key.0 && list[k].symbol == key.1
}

proof fn lemma_walk_new_holding(
    m: Market,
    buys: Seq<OrderView>,
    sells: Seq<OrderView>,
    i: int,
    key: (Seq<char>, Seq<char>),
)
    requires
        !m.holdings.contains_key(key),
        walk(m, buys, sells, i).holdings.contains_key(key),
    ensures
        trader_of(buys, key) || trader_of(sells, key),
    decreases buys.len() - i,
{
    if 0 <= i < buys.len() && i < sells.len() && buys[i].price >= sells[i].price {
        let b = buys[i];
        let sl = sells[i];
        let r = step(m, b, sl);
        if r.1.holdings.contains_key(key) {
            if key == (b.user, b.symbol) {
                assert(trader_of(buys, key));
            } else {
                assert(b.symbol == sl.symbol);
                assert(key == (sl.user, sl.symbol));
                assert(trader_of(sells, key));
            }
        } else {
            lemma_walk_new_holding(r.1, buys, sells, i + 1, key);
        }
    }
}

/// A matching pass creates a holding only for the user and symbol of an
/// order that was open when it began: a user who had no holding in a
/// symbol and had no open order in it still has none after the pass.
pub proof fn lemma_pass_new_holding(m: Market, key: (Seq<char>, Seq<char>))
    requires
        !m.holdings.contains_key(key),
        matching_pass(m).holdings.contains_key(key),
    ensures
        exists|o: OrderView| #[trigger] m.orders.contains(o) && o.user == key.0 && o.symbol == key.1,
{
    lemma_walk_new_holding(m, buy_list(m), sell_list(m), 0, key);
    if trader_of(buy_list(m), key) {
        let k = choose|k: int| 0 <= k < buy_list(m).len() && (#[trigger] buy_list(m)[k]).user == key.0
            && buy_list(m)[k].symbol == key.1;
        lemma_list_in_orders(m.orders, OrderType::Buy, true, k);
        assert(m.orders.contains(buy_list(m)[k]));
    } else {
        let k = choose|k: int| 0 <= k < sell_list(m).len() && (#[trigger] sell_list(m)[k]).user == key.0
            && sell_list(m)[k].symbol == key.1;
        lemma_list_in_orders(m.orders, OrderType::Sell, false, k);
        assert(m.orders.contains(sell_list(m)[k]));
    }
}

/// A buy of 10 against a sell of 4 at crossing prices, where the buyer can
/// pay for 4 units, the seller holds at least 4, and every amount of the
/// settlement is an `i32`: the pass records one trade of 4 units, the sell
/// order leaves the open set, and what is left of the buy order, 6 units,
/// stays open under its own id.
pub proof fn lemma_partial_fill(m: Market, b: OrderView, s: OrderView)
    requires
        m.orders == seq![b, s] || m.orders == seq![s, b],
        b.side == OrderType::Buy,
        s.side == OrderType::Sell,
        b.id != s.id,
        b.quantity == 10,
        s.quantity == 4,
        b.symbol == s.symbol,
        b.price >= s.price,
        m.balances.contains_key(b.user),
        m.balances[b.user] >= 4 * b.price,
        m.holdings.contains_key((s.user, s.symbol)),
        m.holdings[(s.user, s.symbol)] >= 4,
        settle_fits(m, b, s),
    ensures
        trade_of(b, s).quantity == 4,
        matching_pass(m).trades == m.trades.push(trade_of(b, s)),
        matching_pass(m).orders == seq![residual(b, OrderType::Buy, 4)],
        residual(b, OrderType::Buy, 4).quantity == 6,
        residual(b, OrderType::Buy, 4).id == b.id,
{
    reveal_with_fuel(Seq::filter, 3);
    assert(m.orders.filter(is_side(OrderType::Buy)) =~= seq![b]) by {
        if m.orders == seq![b, s] {
            assert(m.orders.drop_last() =~= seq![b]);
            assert(seq![b].drop_last() =~= Seq::<OrderView>::empty());
        } else {
            assert(m.orders.drop_last() =~= seq![s]);
            assert(seq![s].drop_last() =~= Seq::<OrderView>::empty());
        }
    }
    assert(m.orders.filter(is_side(OrderType::Sell)) =~= seq![s]) by {
        if m.orders == seq![b, s] {
            assert(m.orders.drop_last() =~= seq![b]);
            assert(seq![b].drop_last() =~= Seq::<OrderView>::empty());
        } else {
            assert(m.orders.drop_last() =~= seq![s]);
            assert(seq![s].drop_last() =~= Seq::<OrderView>::empty());
        }
    }
    assert(seq![b].drop_last() =~= Seq::<OrderView>::empty());
    assert(seq![s].drop_last() =~= Seq::<OrderView>::empty());
    let e = Seq::<OrderView>::empty();
    assert(sort_by_price(e, true) == e);
    assert(sort_by_price(e, false) == e);
    assert(insertion_point(e, b, true) == 0);
    assert(insertion_point(e, s, false) == 0);
    assert(e.insert(0, b) =~= seq![b]);
    assert(e.insert(0, s) =~= seq![s]);
    assert(sort_by_price(seq![b], true) =~= seq![b]);
    assert(sort_by_price(seq![s], false) =~= seq![s]);
    assert(buy_list(m) == seq![b]);
    assert(sell_list(m) == seq![s]);
    assert(executed(b, s) == 4);
    let r = step(m, b, s);
    assert(r.0);
    assert(walk(r.1, buy_list(m), sell_list(m), 1) == r.1);
    assert(walk(m, buy_list(m), sell_list(m), 0) == r.1);
    let o1 = remove_id(m.orders, b.id);
    assert(remove_id(e, b.id) == e);
    assert(remove_id(seq![b], b.id) == e);
    assert(remove_id(e, b.id).push(s) =~= seq![s]);
    if m.orders == seq![b, s] {
        assert(m.orders.drop_last() =~= seq![b]);
        assert(seq![b].drop_last() =~= Seq::<OrderView>::empty());
        assert(m.orders.last() == s);
        assert(o1 == remove_id(seq![b], b.id).push(s));
        assert(o1 =~= seq![s]);
    } else {
        assert(m.orders.drop_last() =~= seq![s]);
        assert(seq![s].drop_last() =~= Seq::<OrderView>::empty());
        assert(m.orders.last() == b);
        assert(seq![s].last() == s);
        assert(remove_id(seq![s], b.id) == remove_id(e, b.id).push(s));
        assert(o1 == remove_id(seq![s], b.id));
        assert(o1 =~= seq![s]);
    }
    assert(seq![s].drop_last() =~= e);
    assert(seq![s].last() == s);
    assert(remove_id(e, s.id) == e);
    assert(remove_id(seq![s], s.id) == e);
    assert(remove_id(o1, s.id) =~= Seq::<OrderView>::empty());
    assert(remove_id(Seq::<OrderView>::empty(), b.id) =~= Seq::<OrderView>::empty());
    assert(r.1.orders =~= seq![residual(b, OrderType::Buy, 4)]);
}

/// A step keeps the trade log and at most appends one trade to it.
proof fn lemma_step_appends(m: Market, b: OrderView, s: OrderView)
    ensures
        step(m, b, s).1.trades == m.trades || step(m, b, s).1.trades == m.trades.push(trade_of(b, s)),
{
}

/// The trade log is append-only: a matching pass keeps every trade already
/// recorded, in place, and only adds after them.
pub proof fn lemma_pass_appends(m: Market)
    ensures
        m.trades.len() <= matching_pass(m).trades.len(),
        matching_pass(m).trades.subrange(0, m.trades.len() as int) == m.trades,
{
    lemma_walk_appends(m, buy_list(m), sell_list(m), 0);
}

proof fn lemma_walk_appends(m: Market, buys: Seq<OrderView>, sells: Seq<OrderView>, i: int)
    ensures
        m.trades.len() <= walk(m, buys, sells, i).trades.len(),
        walk(m, buys, sells, i).trades.subrange(0, m.trades.len() as int) == m.trades,
    decreases buys.len() - i,
{
    if 0 <= i < buys.len() && i < sells.len() && buys[i].price >= sells[i].price {
        let r = step(m, buys[i], sells[i]);
        lemma_step_appends(m, buys[i], sells[i]);
        if r.0 {
            lemma_walk_appends(r.1, buys, sells, i + 1);
            let t = walk(r.1, buys, sells, i + 1).trades;
            assert(t.subrange(0, m.trades.len() as int) =~= t.subrange(0, r.1.trades.len() as int).subrange(
                0,
                m.trades.len() as int,
            ));
        }
        assert(r.1.trades.subrange(0, m.trades.len() as int) =~= m.trades);
    } else {
        assert(m.trades.subrange(0, m.trades.len() as int) =~= m.trades);
    }
}

/// A matching pass over a market with no open orders changes nothing; in
/// particular the trade log stays as it was.
pub proof fn lemma_pass_without_orders(m: Market)
    requires
        m.orders.len() == 0,
    ensures
        matching_pass(m) == m,
        matching_pass(m).trades == m.trades,
{
    reveal(Seq::filter);
    assert(m.orders.filter(is_side(OrderType::Buy)).len() == 0);
    assert(buy_list(m).len() == 0);
}

/// Whether `x` is a value of `i32`.
fn in_i32(x: i64) -> (r: bool)
    ensures
        r == fits_i32(x as int),
{
    i32::MIN as i64 <= x && x <= i32::MAX as i64
}

} // verus!
