use vstd::prelude::*;

use crate::assoc::{
    assoc_map, fits_i32, keys_unique, lemma_assoc_absent, lemma_assoc_lookup, lemma_assoc_push,
    lemma_assoc_update,
};
use crate::order::{
    has_id, ids_below, ids_unique, lemma_place_unique, lemma_remove_below, lemma_remove_absent, lemma_remove_at,
    lemma_remove_keeps, is_side, orders_view, place, remove_id, Order, OrderType, OrderView,
};

verus! {

/// The cash account of one user.
pub struct Account {
    pub user_id: String,
    pub balance: i32,
}

/// The accounts as an association list from user to balance.
pub open spec fn account_pairs(s: Seq<Account>) -> Seq<(Seq<char>, i32)> {
    s.map_values(|a: Account| (a.user_id@, a.balance))
}

/// The ledger: cash accounts and the set of open orders.
pub struct Broker {
    /// One account per user.
    pub users: Vec<Account>,
    /// The open orders, one per id.
    pub open_orders: Vec<Order>,
    /// The id that the next new order gets; every open order has a smaller one.
    max_order_id: i32,
}

impl Broker {
    /// The balance of each registered user.
    pub closed spec fn balances(&self) -> Map<Seq<char>, i32> {
        assoc_map(account_pairs(self.users@))
    }

    /// The open orders.
    pub closed spec fn orders(&self) -> Seq<OrderView> {
        orders_view(self.open_orders@)
    }

    /// The id that the next new order gets.
    pub closed spec fn next_id(&self) -> i32 {
        self.max_order_id
    }

    /// One account per user, one open order per id, and every open id one
    /// that the ledger has already issued.
    pub closed spec fn wf(&self) -> bool {
        &&& keys_unique(account_pairs(self.users@))
        &&& ids_unique(self.orders())
        &&& 0 <= self.next_id()
        &&& ids_below(self.orders(), self.next_id())
    }

    /// What the ledger's invariant gives about its open orders.
    pub proof fn lemma_wf(&self)
        requires
            self.wf(),
        ensures
            ids_unique(self.orders()),
            0 <= self.next_id(),
            ids_below(self.orders(), self.next_id()),
    {
    }

    /// The open orders split by side, each in the order of the open set.
    pub fn open_orders_by_side(&self) -> (r: (Vec<Order>, Vec<Order>))
        ensures
            orders_view(r.0@) == self.orders().filter(is_side(OrderType::Buy)),
            orders_view(r.1@) == self.orders().filter(is_side(OrderType::Sell)),
    {
        let ghost all = self.orders();
        let mut buys: Vec<Order> = Vec::new();
        let mut sells: Vec<Order> = Vec::new();
        let mut i: usize = 0;
        while i < self.open_orders.len()
            invariant
                all == self.orders(),
                i <= self.open_orders@.len(),
                orders_view(buys@) == all.take(i as int).filter(is_side(OrderType::Buy)),
                orders_view(sells@) == all.take(i as int).filter(is_side(OrderType::Sell)),
            decreases self.open_orders@.len() - i,
        {
            let ghost b0 = buys@;
            let ghost s0 = sells@;
            let o = self.open_orders[i].duplicate();
            match o.order_type {
                OrderType::Buy => {
                    buys.push(o);
                    assert(orders_view(buys@) =~= orders_view(b0).push(o@));
                },
                OrderType::Sell => {
                    sells.push(o);
                    assert(orders_view(sells@) =~= orders_view(s0).push(o@));
                },
            }
            proof {
                let next = all.take(i as int + 1);
                assert(next.drop_last() =~= all.take(i as int));
                assert(next.last() == o@);
                reveal(Seq::filter);
            }
            i += 1;
        }
        assert(all.take(i as int) =~= all);
        (buys, sells)
    }

    /// The id that the next new order gets.
    pub fn next_order_id(&self) -> (r: i32)
        ensures
            r == self.next_id(),
    {
        self.max_order_id
    }

    /// An empty ledger: no users, no open orders, ids starting at 0.
    pub fn new() -> (r: Broker)
        ensures
            r.wf(),
            r.balances() == Map::<Seq<char>, i32>::empty(),
            r.orders() == Seq::<OrderView>::empty(),
            r.next_id() == 0,
    {
        let r = Broker { users: Vec::new(), open_orders: Vec::new(), max_order_id: 0 };
        assert(account_pairs(r.users@) =~= Seq::empty());
        assert(r.orders() =~= Seq::empty());
        r
    }

    /// The position of the account of `user_id`, if there is one.
    fn find_user(&self, user_id: &String) -> (r: Option<usize>)
        requires
            self.wf(),
        ensures
            match r {
                Some(k) => k < self.users@.len() && self.users@[k as int].user_id@ == user_id@
                    && self.balances().contains_key(user_id@)
                    && self.balances()[user_id@] == self.users@[k as int].balance,
                None => !self.balances().contains_key(user_id@),
            },
    {
        let mut i: usize = 0;
        while i < self.users.len()
            invariant
                self.wf(),
                i <= self.users@.len(),
                forall|j: int| 0 <= j < i ==> #[trigger] self.users@[j].user_id@ != user_id@,
            decreases self.users@.len() - i,
        {
            if self.users[i].user_id == *user_id {
                proof {
                    let p = account_pairs(self.users@);
                    assert(p[i as int].0 == user_id@);
                    lemma_assoc_lookup(p, i as int);
                }
                return Some(i);
            }
            i += 1;
        }
        proof {
            let p = account_pairs(self.users@);
            assert forall|j: int| 0 <= j < p.len() implies #[trigger] p[j].0 != user_id@ by {
                assert(self.users@[j].user_id@ != user_id@);
            }
            lemma_assoc_absent(p, user_id@);
        }
        None
    }

    /// Sets the balance at position `k` to `v`.
    fn set_balance_at(&mut self, k: usize, v: i32)
        requires
            old(self).wf(),
            k < old(self).users@.len(),
        ensures
            final(self).wf(),
            final(self).balances() == old(self).balances().insert(
                old(self).users@[k as int].user_id@,
                v,
            ),
            final(self).orders() == old(self).orders(),
            final(self).next_id() == old(self).next_id(),
    {
        let user_id = self.users[k].user_id.clone();
        let ghost p = account_pairs(self.users@);
        self.users.set(k, Account { user_id, balance: v });
        proof {
            lemma_assoc_update(p, k as int, v);
            assert(account_pairs(self.users@) =~= p.update(k as int, (p[k as int].0, v)));
        }
    }

    /// Registers `user_id` with balance 0; a user already registered is
    /// set back to 0.
    pub fn add_user(&mut self, user_id: String)
        requires
            old(self).wf(),
        ensures
            final(self).wf(),
            final(self).balances() == old(self).balances().insert(user_id@, 0),
            final(self).balances()[user_id@] == 0,
            final(self).orders() == old(self).orders(),
            final(self).next_id() == old(self).next_id(),
    {
        match self.find_user(&user_id) {
            Some(k) => {
                self.set_balance_at(k, 0);
            },
            None => {
                let ghost p = account_pairs(self.users@);
                let ghost u = user_id@;
                self.users.push(Account { user_id, balance: 0 });
                proof {
                    assert(account_pairs(self.users@) =~= p.push((u, 0)));
                    lemma_assoc_push(p, (u, 0));
                    assert forall|j: int| 0 <= j < p.len() implies #[trigger] p[j].0 != u by {
                        if p[j].0 == u {
                            lemma_assoc_lookup(p, j);
                        }
                    }
                }
            },
        }
    }

    /// The balance of `user_id`, or `None` for a user not registered.
    pub fn get_balance(&self, user_id: &str) -> (r: Option<i32>)
        requires
            self.wf(),
        ensures
            r == (if self.balances().contains_key(user_id@) {
                Some(self.balances()[user_id@])
            } else {
                None::<i32>
            }),
    {
        let u = user_id.to_owned();
        match self.find_user(&u) {
            Some(k) => Some(self.users[k].balance),
            None => None,
        }
    }

    /// Adds `delta` to the balance of `user_id`; does nothing for a user not
    /// registered.
    pub fn update_balance(&mut self, user_id: &str, delta: i32)
        requires
            old(self).wf(),
            old(self).balances().contains_key(user_id@) ==> fits_i32(
                old(self).balances()[user_id@] + delta,
            ),
        ensures
            final(self).wf(),
            final(self).balances() == (if old(self).balances().contains_key(user_id@) {
                old(self).balances().insert(user_id@, (old(self).balances()[user_id@] + delta) as i32)
            } else {
                old(self).balances()
            }),
            final(self).orders() == old(self).orders(),
            final(self).next_id() == old(self).next_id(),
    {
        let u = user_id.to_owned();
        match self.find_user(&u) {
            Some(k) => {
                let b = self.users[k].balance;
                self.set_balance_at(k, b + delta);
            },
            None => {},
        }
    }

    /// The position of the open order with id `order_id`, if there is one.
    fn find_order(&self, order_id: i32) -> (r: Option<usize>)
        ensures
            match r {
                Some(k) => k < self.open_orders@.len() && self.orders()[k as int].id == order_id
                    && has_id(self.orders(), order_id),
                None => !has_id(self.orders(), order_id),
            },
    {
        let mut i: usize = 0;
        while i < self.open_orders.len()
            invariant
                i <= self.open_orders@.len(),
                forall|j: int| 0 <= j < i ==> #[trigger] self.orders()[j].id != order_id,
            decreases self.open_orders@.len() - i,
        {
            if self.open_orders[i].id == order_id {
                assert(self.orders()[i as int].id == order_id);
                return Some(i);
            }
            i += 1;
        }
        None
    }

    /// Takes the open order with id `order_id` out of the set, if there is one.
    fn remove_order(&mut self, order_id: i32)
        requires
            old(self).wf(),
        ensures
            final(self).wf(),
            final(self).orders() == remove_id(old(self).orders(), order_id),
            final(self).balances() == old(self).balances(),
            final(self).next_id() == old(self).next_id(),
    {
        let ghost s = self.orders();
        match self.find_order(order_id) {
            Some(k) => {
                self.open_orders.remove(k);
                proof {
                    lemma_remove_at(s, order_id, k as int);
                    assert(self.orders() =~= s.remove(k as int));
                }
            },
            None => {
                proof {
                    lemma_remove_absent(s, order_id);
                }
            },
        }
        proof {
            lemma_remove_keeps(s, order_id);
            lemma_remove_below(s, order_id, self.max_order_id);
        }
    }

    /// Stores `order` as open under its own id, an id that the ledger has
    /// already issued, replacing any open order that holds that id.
    pub fn place_order(&mut self, order: Order)
        requires
            old(self).wf(),
            0 <= order.id < old(self).next_id(),
        ensures
            final(self).wf(),
            final(self).orders() == place(old(self).orders(), order@),
            final(self).balances() == old(self).balances(),
            final(self).next_id() == old(self).next_id(),
    {
        let ghost s = self.orders();
        let ghost v = order@;
        self.remove_order(order.id);
        let ghost t = self.orders();
        self.open_orders.push(order);
        proof {
            assert(self.orders() =~= t.push(v));
            lemma_place_unique(s, v);
        }
    }

    /// Stores `order` as open under the next id, and returns that id.
    ///
    /// Ids are issued in strictly increasing order: the id returned is the
    /// counter, which this call raises by one and which no other operation
    /// changes. So no id is issued twice, and none is an id that an open
    /// order already holds.
    pub fn place_new_order(&mut self, order: Order) -> (r: i32)
        requires
            old(self).wf(),
            old(self).next_id() < i32::MAX,
        ensures
            r == old(self).next_id(),
            0 <= r,
            final(self).next_id() == r + 1,
            !has_id(old(self).orders(), r),
            final(self).wf(),
            final(self).orders() == place(
                old(self).orders(),
                OrderView { id: r, ..order@ },
            ),
            final(self).balances() == old(self).balances(),
    {
        let mut order = order;
        order.id = self.max_order_id;
        proof {
            if has_id(self.orders(), order.id) {
                let k = choose|k: int| 0 <= k < self.orders().len() && #[trigger] self.orders()[k].id == order.id;
                assert(self.orders()[k].id < self.max_order_id);
            }
        }
        let ghost s = self.orders();
        self.max_order_id = self.max_order_id + 1;
        assert(ids_below(s, self.max_order_id));
        self.place_order(order);
        self.max_order_id - 1
    }

    /// Takes the open order with id `order_id` out of the set; does nothing
    /// where no open order has that id.
    pub fn cancel_order(&mut self, order_id: i32)
        requires
            old(self).wf(),
        ensures
            final(self).wf(),
            final(self).orders() == remove_id(old(self).orders(), order_id),
            !has_id(final(self).orders(), order_id),
            !has_id(old(self).orders(), order_id) ==> final(self).orders() == old(self).orders(),
            final(self).balances() == old(self).balances(),
            final(self).next_id() == old(self).next_id(),
    {
        proof {
            lemma_remove_keeps(self.orders(), order_id);
            if !has_id(self.orders(), order_id) {
                lemma_remove_absent(self.orders(), order_id);
            }
        }
        self.remove_order(order_id);
    }

    /// Whether an order with id `order_id` is open.
    pub fn has_order(&self, order_id: i32) -> (r: bool)
        ensures
            r == has_id(self.orders(), order_id),
    {
        self.find_order(order_id).is_some()
    }

    /// A copy of the open orders.
    pub fn get_open_orders(&self) -> (r: Vec<Order>)
        ensures
            orders_view(r@) == self.orders(),
    {
        let mut r: Vec<Order> = Vec::new();
        let mut i: usize = 0;
        while i < self.open_orders.len()
            invariant
                i <= self.open_orders@.len(),
                orders_view(r@) == self.orders().take(i as int),
            decreases self.open_orders@.len() - i,
        {
            let o = self.open_orders[i].duplicate();
            let ghost before = r@;
            r.push(o);
            proof {
                assert(r@ == before.push(o));
                assert(orders_view(r@) =~= orders_view(before).push(o@));
                assert(self.orders()[i as int] == o@);
                assert(orders_view(r@) =~= self.orders().take(i as int + 1));
            }
            i += 1;
        }
        assert(self.orders().take(i as int) =~= self.orders());
        r
    }
}

/// Cancelling takes an order out of the open set, so that `has_order` no
/// longer finds it, and leaves the rest in place; cancelling an id that is
/// not open changes nothing.
pub proof fn lemma_cancel_removes(before: Broker, after: Broker, order_id: i32)
    requires
        before.wf(),
        after.orders() == remove_id(before.orders(), order_id),
    ensures
        !has_id(after.orders(), order_id),
        forall|o: OrderView| #[trigger] after.orders().contains(o) <==> (before.orders().contains(o) && o.id != order_id),
        !has_id(before.orders(), order_id) ==> after.orders() == before.orders(),
{
    lemma_remove_keeps(before.orders(), order_id);
    if !has_id(before.orders(), order_id) {
        lemma_remove_absent(before.orders(), order_id);
    }
}

} // verus!
