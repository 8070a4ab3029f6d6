//! The data model: products, order lines, and orders, together with
//! the mathematical views and spec functions that the store and the
//! recommendation query state their contracts over.

use vstd::prelude::*;

verus! {

/// A product, identified by its id; the name is carried along but
/// plays no role in any computation.
#[derive(Clone, Debug, PartialEq, Eq)]
pub struct Product {
    pub id: String,
    pub name: String,
}

/// One line of an order: a product and a quantity. The quantity is
/// stored but does not weight the co-occurrence counts, which are
/// per line.
#[derive(Clone, Debug, PartialEq, Eq)]
pub struct OrderItem {
    pub product: Product,
    pub quantity: u16,
}

/// An order: an id, unique across the store, and a non-empty
/// sequence of lines. Orders are immutable once accepted.
#[derive(Clone, Debug, PartialEq, Eq)]
pub struct Order {
    pub id: String,
    pub items: Vec<OrderItem>,
}

/// The mathematical value of a `Product`.
#[verifier::ext_equal]
pub struct ProductView {
    pub id: Seq<char>,
    pub name: Seq<char>,
}

/// The mathematical value of an `OrderItem`.
#[verifier::ext_equal]
pub struct OrderItemView {
    pub product: ProductView,
    pub quantity: u16,
}

/// The mathematical value of an `Order`.
#[verifier::ext_equal]
pub struct OrderView {
    pub id: Seq<char>,
    pub items: Seq<OrderItemView>,
}

impl View for Product {
    type V = ProductView;

    open spec fn view(&self) -> ProductView {
        ProductView { id: self.id@, name: self.name@ }
    }
}

impl DeepView for Product {
    type V = ProductView;

    open spec fn deep_view(&self) -> ProductView {
        self.view()
    }
}

impl View for OrderItem {
    type V = OrderItemView;

    open spec fn view(&self) -> OrderItemView {
        OrderItemView { product: self.product@, quantity: self.quantity }
    }
}

impl DeepView for OrderItem {
    type V = OrderItemView;

    open spec fn deep_view(&self) -> OrderItemView {
        self.view()
    }
}

impl View for Order {
    type V = OrderView;

    open spec fn view(&self) -> OrderView {
        OrderView { id: self.id@, items: self.items.deep_view() }
    }
}

impl DeepView for Order {
    type V = OrderView;

    open spec fn deep_view(&self) -> OrderView {
        self.view()
    }
}

/// Whether some line of `items` carries the product id `pid`.
pub open spec fn items_have_product(items: Seq<OrderItemView>, pid: Seq<char>) -> bool {
    exists|i: int| 0 <= i < items.len() && items[i].product.id == pid
}

/// Whether some line of the order carries the product id `pid`.
pub open spec fn order_has_product(o: OrderView, pid: Seq<char>) -> bool {
    items_have_product(o.items, pid)
}

/// How many lines of `items` carry the product id `pid`. Each line
/// counts once, so a product repeated across lines counts per line.
pub open spec fn count_in_items(items: Seq<OrderItemView>, pid: Seq<char>) -> nat
    decreases items.len(),
{
    if items.len() == 0 {
        0
    } else {
        count_in_items(items.drop_last(), pid) + (if items.last().product.id == pid {
            1nat
        } else {
            0nat
        })
    }
}

/// The total number of lines across a sequence of orders.
pub open spec fn total_line_count(orders: Seq<OrderView>) -> nat
    decreases orders.len(),
{
    if orders.len() == 0 {
        0
    } else {
        total_line_count(orders.drop_last()) + orders.last().items.len()
    }
}

/// Whether some order in `orders` has the id `id`.
pub open spec fn contains_order_id(orders: Seq<OrderView>, id: Seq<char>) -> bool {
    exists|i: int| 0 <= i < orders.len() && orders[i].id == id
}

/// No product id is carried by more lines than there are lines.
pub proof fn lemma_count_in_items_le_len(items: Seq<OrderItemView>, pid: Seq<char>)
    ensures
        count_in_items(items, pid) <= items.len(),
    decreases items.len(),
{
    if items.len() > 0 {
        lemma_count_in_items_le_len(items.drop_last(), pid);
    }
}

/// Counting over a prefix of the lines never exceeds counting over
/// all of them.
pub proof fn lemma_count_in_items_prefix_le(items: Seq<OrderItemView>, j: int, pid: Seq<char>)
    requires
        0 <= j <= items.len(),
    ensures
        count_in_items(items.take(j), pid) <= count_in_items(items, pid),
    decreases items.len() - j,
{
    if j < items.len() {
        lemma_count_in_items_prefix_le(items, j + 1, pid);
        assert(items.take(j + 1).drop_last() =~~= items.take(j));
        assert(items.take(j + 1).last() == items[j]);
    } else {
        assert(items.take(j) =~~= items);
    }
}

/// An exact copy of a product.
pub fn clone_product(p: &Product) -> (r: Product)
    ensures
        r@ == p@,
{
    Product { id: p.id.clone(), name: p.name.clone() }
}

/// An exact copy of an order line.
pub fn clone_order_item(it: &OrderItem) -> (r: OrderItem)
    ensures
        r@ == it@,
{
    OrderItem { product: clone_product(&it.product), quantity: it.quantity }
}

/// An exact copy of an order.
pub fn clone_order(o: &Order) -> (r: Order)
    ensures
        r@ == o@,
{
    let mut items: Vec<OrderItem> = Vec::new();
    let mut i: usize = 0;
    while i < o.items.len()
        invariant
            i <= o.items.len(),
            items@.len() == i,
            items.deep_view() == o.items.deep_view().take(i as int),
        decreases o.items.len() - i,
    {
        let ghost prev = items@;
        let ghost prevdv = items.deep_view();
        let it = clone_order_item(&o.items[i]);
        let ghost itv = it.deep_view();
        proof {
            assert(itv == o.items.deep_view()[i as int]);
        }
        items.push(it);
        i = i + 1;
        proof {
            assert forall|k: int| 0 <= k < i implies items.deep_view()[k]
                == o.items.deep_view().take(i as int)[k] by {
                if k < i - 1 {
                    assert(items@[k] == prev[k]);
                    assert(prevdv[k] == prev[k].deep_view());
                    assert(prevdv[k] == o.items.deep_view().take(i - 1)[k]);
                } else {
                    assert(items@[k].deep_view() == itv);
                }
            }
            assert(items.deep_view() =~~= o.items.deep_view().take(i as int));
        }
    }
    assert(items.deep_view() =~~= o.items.deep_view());
    assert(items.deep_view() == o.items.deep_view());
    let r = Order { id: o.id.clone(), items };
    assert(r@ =~~= o@);
    r
}

} // verus!
