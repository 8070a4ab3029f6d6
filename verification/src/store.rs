//! The order store: an in-memory collection of orders, keyed by
//! order id. Submission enforces that ids are unique and that every
//! accepted order has at least one line; reads hand out snapshots, so
//! callers are isolated from later mutation. The store itself is a
//! plain value: an embedding that shares it across tasks serializes
//! every operation behind a single exclusive lock.

use vstd::prelude::*;

use crate::order::clone_order;
use crate::order::contains_order_id;
use crate::order::Order;
use crate::order::OrderView;

verus! {

/// Why a submission was rejected. The store is left unchanged in
/// either case.
#[derive(Clone, Copy, Debug, PartialEq, Eq, Structural)]
pub enum RejectReason {
    /// The submitted order had no lines.
    EmptyItems,
    /// An order with the same id is already stored.
    DuplicateId,
}

/// The stored orders are well formed: no two share an id, and every
/// one has at least one line.
pub open spec fn store_wf(orders: Seq<OrderView>) -> bool {
    &&& forall|i: int, j: int| 0 <= i < j < orders.len() ==> orders[i].id != orders[j].id
    &&& forall|i: int| 0 <= i < orders.len() ==> orders[i].items.len() > 0
}

/// The collection of submitted orders, in insertion order.
pub struct OrderStore {
    orders: Vec<Order>,
}

impl View for OrderStore {
    type V = Seq<OrderView>;

    closed spec fn view(&self) -> Seq<OrderView> {
        self.orders.deep_view()
    }
}

impl OrderStore {
    /// The store's invariant: ids unique, every order non-empty.
    pub open spec fn wf(&self) -> bool {
        store_wf(self@)
    }

    /// An empty store.
    pub fn new() -> (s: OrderStore)
        ensures
            s@ == Seq::<OrderView>::empty(),
            s.wf(),
    {
        let s = OrderStore { orders: Vec::new() };
        proof {
            assert(s@ =~~= Seq::<OrderView>::empty());
        }
        s
    }

    /// Validates and inserts an order: rejected with `EmptyItems`
    /// when it has no lines, with `DuplicateId` when its id is
    /// already stored, and appended otherwise. A rejected submission
    /// leaves the store exactly as it was.
    pub fn submit(&mut self, order: Order) -> (r: Result<(), RejectReason>)
        requires
            old(self).wf(),
        ensures
            final(self).wf(),
            order@.items.len() == 0 ==> r == Err::<(), RejectReason>(RejectReason::EmptyItems)
                && final(self)@ == old(self)@,
            order@.items.len() > 0 && contains_order_id(old(self)@, order@.id) ==> r == Err::<
                (),
                RejectReason,
            >(RejectReason::DuplicateId) && final(self)@ == old(self)@,
            order@.items.len() > 0 && !contains_order_id(old(self)@, order@.id) ==> r == Ok::<
                (),
                RejectReason,
            >(()) && final(self)@ == old(self)@.push(order@),
    {
        if order.items.len() == 0 {
            return Err(RejectReason::EmptyItems);
        }
        if contains_id(&self.orders, &order.id) {
            return Err(RejectReason::DuplicateId);
        }
        let ghost pre = self.orders.deep_view();
        let ghost prevs = self.orders@;
        let ghost ov = order@;
        self.orders.push(order);
        proof {
            assert forall|k: int| 0 <= k < self.orders@.len() implies self.orders.deep_view()[k]
                == pre.push(ov)[k] by {
                if k < prevs.len() {
                    assert(self.orders@[k] == prevs[k]);
                    assert(pre[k] == prevs[k].deep_view());
                } else {
                    assert(self.orders@[k].deep_view() == ov);
                }
            }
            assert(self.orders.deep_view() =~~= pre.push(ov));
        }
        Ok(())
    }

    /// A snapshot of the stored orders, in insertion order. The
    /// caller receives its own copy, isolated from later mutation.
    pub fn list(&self) -> (r: Vec<Order>)
        ensures
            r.deep_view() == self@,
    {
        let mut r: Vec<Order> = Vec::new();
        let mut i: usize = 0;
        while i < self.orders.len()
            invariant
                i <= self.orders.len(),
                r@.len() == i,
                r.deep_view() == self.orders.deep_view().take(i as int),
            decreases self.orders.len() - i,
        {
            let ghost prev = r@;
            let ghost prevdv = r.deep_view();
            let o = clone_order(&self.orders[i]);
            let ghost odv = o.deep_view();
            proof {
                assert(odv == self.orders.deep_view()[i as int]);
            }
            r.push(o);
            i = i + 1;
            proof {
                assert forall|k: int| 0 <= k < i implies r.deep_view()[k]
                    == self.orders.deep_view().take(i as int)[k] by {
                    if k < i - 1 {
                        assert(r@[k] == prev[k]);
                        assert(prevdv[k] == prev[k].deep_view());
                        assert(prevdv[k] == self.orders.deep_view().take(i - 1)[k]);
                    } else {
                        assert(r@[k].deep_view() == odv);
                    }
                }
                assert(r.deep_view() =~~= self.orders.deep_view().take(i as int));
            }
        }
        proof {
            assert(r.deep_view() =~~= self.orders.deep_view());
        }
        r
    }

    /// Atomically replaces the stored orders with the empty set,
    /// whatever the prior state. Idempotent.
    pub fn reset(&mut self)
        ensures
            final(self)@ == Seq::<OrderView>::empty(),
            final(self).wf(),
    {
        self.orders = Vec::new();
        proof {
            assert(self@ =~~= Seq::<OrderView>::empty());
        }
    }
}

/// Whether some stored order has the id `id`.
fn contains_id(orders: &Vec<Order>, id: &String) -> (b: bool)
    ensures
        b == contains_order_id(orders.deep_view(), id@),
{
    let mut i: usize = 0;
    while i < orders.len()
        invariant
            i <= orders.len(),
            forall|k: int| 0 <= k < i ==> orders.deep_view()[k].id != id@,
        decreases orders.len() - i,
    {
        if orders[i].id == *id {
            proof {
                assert(orders.deep_view()[i as int].id == id@);
            }
            return true;
        }
        i = i + 1;
    }
    false
}

/// Law: a reset empties the store whatever state preceded it, so a
/// listing taken after a reset is always the empty sequence. `before`
/// is unconstrained: no prior state affects the outcome.
pub proof fn lemma_reset_then_list_empty(
    before: Seq<OrderView>,
    after: Seq<OrderView>,
    listed: Seq<OrderView>,
)
    requires
        after == Seq::<OrderView>::empty(),
        listed == after,
    ensures
        listed.len() == 0,
{
}

} // verus!

