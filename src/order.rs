use vstd::prelude::*;

verus! {

/// The side of an order.
#[derive(Clone, Copy, Debug, PartialEq, Eq, Structural, Hash)]
pub enum OrderType {
    Buy,
    Sell,
}

/// A limit order: an intent to buy or sell `quantity` units of `symbol` at
/// `price` currency units per unit.
#[derive(Clone, Debug, PartialEq, Eq, Hash)]
pub struct Order {
    pub id: i32,
    pub user_id: String,
    pub order_type: OrderType,
    pub symbol: String,
    pub price: i32,
    pub quantity: i32,
}

/// The mathematical value of an `Order`.
pub struct OrderView {
    pub id: i32,
    pub user: Seq<char>,
    pub side: OrderType,
    pub symbol: Seq<char>,
    pub price: i32,
    pub quantity: i32,
}

impl View for Order {
    type V = OrderView;

    open spec fn view(&self) -> OrderView {
        OrderView {
            id: self.id,
            user: self.user_id@,
            side: self.order_type,
            symbol: self.symbol@,
            price: self.price,
            quantity: self.quantity,
        }
    }
}

impl Order {
    /// A copy of this order, field by field.
    pub fn duplicate(&self) -> (r: Order)
        ensures
            r@ == self@,
    {
        Order {
            id: self.id,
            user_id: self.user_id.clone(),
            order_type: self.order_type,
            symbol: self.symbol.clone(),
            price: self.price,
            quantity: self.quantity,
        }
    }
}

/// The views of a sequence of orders, in the same positions.
pub open spec fn orders_view(s: Seq<Order>) -> Seq<OrderView> {
    s.map_values(|o: Order| o@)
}

/// No two orders of `s` carry the same id.
pub open spec fn ids_unique(s: Seq<OrderView>) -> bool {
    forall|i: int, j: int| 0 <= i < j < s.len() ==> #[trigger] s[i].id != #[trigger] s[j].id
}

/// `s` with every order carrying `id` taken out, the rest in their order.
pub open spec fn remove_id(s: Seq<OrderView>, id: i32) -> Seq<OrderView>
    decreases s.len(),
{
    if s.len() == 0 {
        s
    } else if s.last().id == id {
        remove_id(s.drop_last(), id)
    } else {
        remove_id(s.drop_last(), id).push(s.last())
    }
}

/// `s` with `o` stored as open under its own id, replacing any order that
/// held that id.
pub open spec fn place(s: Seq<OrderView>, o: OrderView) -> Seq<OrderView> {
    remove_id(s, o.id).push(o)
}

/// Some order of `s` carries `id`.
pub open spec fn has_id(s: Seq<OrderView>, id: i32) -> bool {
    exists|k: int| 0 <= k < s.len() && #[trigger] s[k].id == id
}

pub proof fn lemma_remove_absent(s: Seq<OrderView>, id: i32)
    requires
        !has_id(s, id),
    ensures
        remove_id(s, id) == s,
    decreases s.len(),
{
    if s.len() > 0 {
        assert(s.last().id == s[s.len() - 1].id);
        lemma_remove_absent(s.drop_last(), id);
        assert(s.drop_last().push(s.last()) =~= s);
    }
}

pub proof fn lemma_remove_at(s: Seq<OrderView>, id: i32, k: int)
    requires
        ids_unique(s),
        0 <= k < s.len(),
        s[k].id == id,
    ensures
        remove_id(s, id) == s.remove(k),
    decreases s.len(),
{
    if k == s.len() - 1 {
        assert forall|j: int| 0 <= j < s.drop_last().len() implies #[trigger] s.drop_last()[j].id != id by {
            assert(s[j].id != s[k].id);
        }
        lemma_remove_absent(s.drop_last(), id);
        assert(s.drop_last() =~= s.remove(k));
    } else {
        assert(s.last().id != id) by {
            assert(s[k].id != s[s.len() - 1].id);
        }
        lemma_remove_at(s.drop_last(), id, k);
        assert(s.drop_last().remove(k).push(s.last()) =~= s.remove(k));
    }
}

/// What is left of `s` after `remove_id` still has unique ids, and holds
/// exactly the orders of `s` whose id differs from `id`.
pub proof fn lemma_remove_keeps(s: Seq<OrderView>, id: i32)
    requires
        ids_unique(s),
    ensures
        ids_unique(remove_id(s, id)),
        !has_id(remove_id(s, id), id),
        forall|o: OrderView| #[trigger] remove_id(s, id).contains(o) <==> (s.contains(o) && o.id != id),
{
    if has_id(s, id) {
        let k = choose|k: int| 0 <= k < s.len() && #[trigger] s[k].id == id;
        lemma_remove_at(s, id, k);
        let r = s.remove(k);
        assert forall|o: OrderView| r.contains(o) <==> (s.contains(o) && o.id != id) by {
            if r.contains(o) {
                let j = choose|j: int| 0 <= j < r.len() && r[j] == o;
                if j < k {
                    assert(s[j] == o);
                    assert(s[j].id != s[k].id);
                } else {
                    assert(s[j + 1] == o);
                    assert(s[j + 1].id != s[k].id);
                }
            }
            if s.contains(o) && o.id != id {
                let j = choose|j: int| 0 <= j < s.len() && s[j] == o;
                if j < k {
                    assert(r[j] == o);
                } else {
                    assert(j != k);
                    assert(r[j - 1] == o);
                }
            }
        }
        assert forall|a: int| 0 <= a < r.len() implies #[trigger] r[a].id != id by {
            if a < k {
                assert(s[a].id != s[k].id);
            } else {
                assert(s[a + 1].id != s[k].id);
            }
        }
    } else {
        lemma_remove_absent(s, id);
    }
}

/// Holds of the orders on `side`.
pub open spec fn is_side(side: OrderType) -> spec_fn(OrderView) -> bool {
    |o: OrderView| o.side == side
}

/// Every order of `s` carries an id in `0..n`.
pub open spec fn ids_below(s: Seq<OrderView>, n: i32) -> bool {
    forall|k: int| 0 <= k < s.len() ==> 0 <= #[trigger] s[k].id < n
}

/// Taking orders out keeps every remaining id in `0..n`.
pub proof fn lemma_remove_below(s: Seq<OrderView>, id: i32, n: i32)
    requires
        ids_unique(s),
        ids_below(s, n),
    ensures
        ids_below(remove_id(s, id), n),
{
    lemma_remove_keeps(s, id);
    let r = remove_id(s, id);
    assert forall|k: int| 0 <= k < r.len() implies 0 <= #[trigger] r[k].id < n by {
        assert(r.contains(r[k]));
        let j = choose|j: int| 0 <= j < s.len() && s[j] == r[k];
        assert(0 <= s[j].id < n);
    }
}

/// Placing an order keeps ids unique.
pub proof fn lemma_place_unique(s: Seq<OrderView>, o: OrderView)
    requires
        ids_unique(s),
    ensures
        ids_unique(place(s, o)),
{
    lemma_remove_keeps(s, o.id);
    let r = remove_id(s, o.id);
    assert forall|i: int, j: int| 0 <= i < j < r.push(o).len() implies #[trigger] r.push(o)[i].id != #[trigger] r.push(o)[j].id by {
        if j == r.len() {
            assert(r[i].id != o.id);
        }
    }
}

} // verus!
