//! The "bought together" aggregation: a pure function over a snapshot
//! of orders that ranks the products co-purchased with a target
//! product, most frequent first, capped at ten entries.

use vstd::prelude::*;
use vstd::seq_lib::group_to_multiset_ensures;

use crate::order::count_in_items;
use crate::order::items_have_product;
use crate::order::lemma_count_in_items_le_len;
use crate::order::lemma_count_in_items_prefix_le;
use crate::order::order_has_product;
use crate::order::total_line_count;
use crate::order::Order;
use crate::order::OrderView;

verus! {

broadcast use group_to_multiset_ensures;

/// How often `pid` is bought together with `target`: across every
/// order that has at least one line with the target id, the number of
/// lines carrying `pid`. Counts accumulate per line, so a product
/// repeated across lines of one order counts once per line; the
/// target's own lines are counted like any other product's.
pub open spec fn cooccurrence_count(
    orders: Seq<OrderView>,
    target: Seq<char>,
    pid: Seq<char>,
) -> nat
    decreases orders.len(),
{
    if orders.len() == 0 {
        0
    } else {
        cooccurrence_count(orders.drop_last(), target, pid) + (if order_has_product(
            orders.last(),
            target,
        ) {
            count_in_items(orders.last().items, pid)
        } else {
            0nat
        })
    }
}

/// Extending the snapshot by one order adds that order's lines for
/// `pid` exactly when the order carries the target.
proof fn lemma_cooccurrence_snoc(orders: Seq<OrderView>, i: int, target: Seq<char>, pid: Seq<char>)
    requires
        0 <= i < orders.len(),
    ensures
        cooccurrence_count(orders.take(i + 1), target, pid) == cooccurrence_count(
            orders.take(i),
            target,
            pid,
        ) + (if order_has_product(orders[i], target) {
            count_in_items(orders[i].items, pid)
        } else {
            0nat
        }),
{
    assert(orders.take(i + 1).drop_last() =~= orders.take(i));
    assert(orders.take(i + 1).last() == orders[i]);
}

/// Counting over a prefix of the snapshot never exceeds counting over
/// all of it.
proof fn lemma_cooccurrence_prefix_le(
    orders: Seq<OrderView>,
    i: int,
    target: Seq<char>,
    pid: Seq<char>,
)
    requires
        0 <= i <= orders.len(),
    ensures
        cooccurrence_count(orders.take(i), target, pid) <= cooccurrence_count(
            orders,
            target,
            pid,
        ),
    decreases orders.len() - i,
{
    if i < orders.len() {
        lemma_cooccurrence_prefix_le(orders, i + 1, target, pid);
        lemma_cooccurrence_snoc(orders, i, target, pid);
    } else {
        assert(orders.take(i) =~= orders);
    }
}

/// No co-occurrence count exceeds the total number of lines.
pub proof fn lemma_cooccurrence_le_total(orders: Seq<OrderView>, target: Seq<char>, pid: Seq<char>)
    ensures
        cooccurrence_count(orders, target, pid) <= total_line_count(orders),
    decreases orders.len(),
{
    if orders.len() > 0 {
        lemma_cooccurrence_le_total(orders.drop_last(), target, pid);
        lemma_count_in_items_le_len(orders.last().items, pid);
    }
}

/// A target that no order carries co-occurs with nothing: every count
/// is zero.
pub proof fn lemma_unknown_target(orders: Seq<OrderView>, target: Seq<char>, pid: Seq<char>)
    requires
        forall|k: int| 0 <= k < orders.len() ==> !order_has_product(orders[k], target),
    ensures
        cooccurrence_count(orders, target, pid) == 0,
    decreases orders.len(),
{
    if orders.len() > 0 {
        assert forall|k: int| 0 <= k < orders.drop_last().len() implies !order_has_product(
            orders.drop_last()[k],
            target,
        ) by {
            assert(orders.drop_last()[k] == orders[k]);
        }
        lemma_unknown_target(orders.drop_last(), target, pid);
        assert(orders[orders.len() - 1] == orders.last());
    }
}

/// Counting the lines across a prefix of the orders never exceeds
/// counting them all.
proof fn lemma_total_prefix_le(orders: Seq<OrderView>, i: int)
    requires
        0 <= i <= orders.len(),
    ensures
        total_line_count(orders.take(i)) <= total_line_count(orders),
    decreases orders.len() - i,
{
    if i < orders.len() {
        lemma_total_prefix_le(orders, i + 1);
        assert(orders.take(i + 1).drop_last() =~= orders.take(i));
        assert(orders.take(i + 1).last() == orders[i]);
    } else {
        assert(orders.take(i) =~= orders);
    }
}

/// `pid` occurs as a key of the counts table.
pub open spec fn table_has_key(m: Seq<(String, u64)>, pid: Seq<char>) -> bool {
    exists|k: int| 0 <= k < m.len() && m[k].0@ == pid
}

/// The keys of the counts table are pairwise distinct.
pub open spec fn table_keys_distinct(m: Seq<(String, u64)>) -> bool {
    forall|k: int, l: int| 0 <= k < l < m.len() ==> m[k].0@ != m[l].0@
}

/// The counts table is exactly the co-occurrence frequency map of the
/// snapshot: distinct keys, each bound to its positive count, and a
/// key for every product with a positive count.
pub open spec fn counts_match(m: Seq<(String, u64)>, orders: Seq<OrderView>, target: Seq<char>) -> bool {
    &&& table_keys_distinct(m)
    &&& forall|k: int|
        0 <= k < m.len() ==> (#[trigger] m[k]).1 as nat == cooccurrence_count(
            orders,
            target,
            m[k].0@,
        )
    &&& forall|k: int| 0 <= k < m.len() ==> (#[trigger] m[k]).1 > 0
    &&& forall|pid: Seq<char>|
        #[trigger] cooccurrence_count(orders, target, pid) > 0 ==> table_has_key(m, pid)
}

/// Whether some line of the order carries the product id `pid`.
fn order_contains(o: &Order, pid: &String) -> (b: bool)
    ensures
        b == order_has_product(o.deep_view(), pid@),
{
    let mut i: usize = 0;
    while i < o.items.len()
        invariant
            i <= o.items.len(),
            forall|k: int| 0 <= k < i ==> o.items.deep_view()[k].product.id != pid@,
        decreases o.items.len() - i,
    {
        if o.items[i].product.id == *pid {
            proof {
                assert(o.items.deep_view()[i as int].product.id == pid@);
                assert(items_have_product(o.deep_view().items, pid@));
            }
            return true;
        }
        i = i + 1;
    }
    proof {
        if items_have_product(o.deep_view().items, pid@) {
            let k = choose|k: int|
                0 <= k < o.items.deep_view().len() && o.items.deep_view()[k].product.id == pid@;
            assert(o.items.deep_view()[k].product.id != pid@);
        }
    }
    false
}

/// The position of `pid` among the table's keys, if it is one.
fn find_key(m: &Vec<(String, u64)>, pid: &String) -> (r: Option<usize>)
    ensures
        match r {
            Some(ix) => ix < m@.len() && m@[ix as int].0@ == pid@,
            None => forall|k: int| 0 <= k < m@.len() ==> m@[k].0@ != pid@,
        },
{
    let mut i: usize = 0;
    while i < m.len()
        invariant
            i <= m@.len(),
            forall|k: int| 0 <= k < i ==> m@[k].0@ != pid@,
        decreases m@.len() - i,
    {
        if m[i].0 == *pid {
            return Some(i);
        }
        i = i + 1;
    }
    None
}

/// Builds the co-occurrence frequency table of the snapshot for
/// `target`: one entry per product id appearing in an order that
/// carries the target, bound to its exact count, in first-seen order.
fn count_cooccurrences(orders: &Vec<Order>, target: &String) -> (m: Vec<(String, u64)>)
    requires
        total_line_count(orders.deep_view()) <= u64::MAX,
    ensures
        counts_match(m@, orders.deep_view(), target@),
{
    let ghost odv = orders.deep_view();
    let ghost t = target@;
    let mut m: Vec<(String, u64)> = Vec::new();
    let mut i: usize = 0;
    proof {
        assert(odv.take(0) =~= Seq::<OrderView>::empty());
    }
    while i < orders.len()
        invariant
            i <= orders.len(),
            odv == orders.deep_view(),
            t == target@,
            total_line_count(odv) <= u64::MAX,
            counts_match(m@, odv.take(i as int), t),
        decreases orders.len() - i,
    {
        let qualifies = order_contains(&orders[i], target);
        if qualifies {
            let ghost iv = odv[i as int].items;
            let nitems = orders[i].items.len();
            proof {
                assert(iv.take(0) =~= Seq::<crate::order::OrderItemView>::empty());
            }
            let mut j: usize = 0;
            while j < nitems
                invariant
                    j <= iv.len(),
                    nitems == iv.len(),
                    i < orders.len(),
                    iv == odv[i as int].items,
                    odv == orders.deep_view(),
                    t == target@,
                    total_line_count(odv) <= u64::MAX,
                    order_has_product(odv[i as int], t),
                    table_keys_distinct(m@),
                    forall|k: int|
                        0 <= k < m@.len() ==> (#[trigger] m@[k]).1 as nat == cooccurrence_count(
                            odv.take(i as int),
                            t,
                            m@[k].0@,
                        ) + count_in_items(iv.take(j as int), m@[k].0@),
                    forall|k: int| 0 <= k < m@.len() ==> (#[trigger] m@[k]).1 > 0,
                    forall|pid: Seq<char>| #![trigger count_in_items(iv.take(j as int), pid)]
                        cooccurrence_count(odv.take(i as int), t, pid) + count_in_items(
                            iv.take(j as int),
                            pid,
                        ) > 0 ==> table_has_key(m@, pid),
                decreases nitems - j,
            {
                let pid = &orders[i].items[j].product.id;
                let ghost pv = pid@;
                proof {
                    assert(iv[j as int].product.id == pv);
                    assert(iv.take(j + 1).drop_last() =~= iv.take(j as int));
                    assert(iv.take(j + 1).last() == iv[j as int]);
                    assert(count_in_items(iv.take(j + 1), pv) == count_in_items(
                        iv.take(j as int),
                        pv,
                    ) + 1);
                }
                match find_key(&m, pid) {
                    Some(ix) => {
                        proof {
                            assert(m@[ix as int].1 as nat == cooccurrence_count(
                                odv.take(i as int),
                                t,
                                pv,
                            ) + count_in_items(iv.take(j as int), pv));
                            lemma_count_in_items_prefix_le(iv, j + 1, pv);
                            lemma_cooccurrence_snoc(odv, i as int, t, pv);
                            lemma_cooccurrence_prefix_le(odv, i as int + 1, t, pv);
                            lemma_cooccurrence_le_total(odv, t, pv);
                            assert(m@[ix as int].1 < u64::MAX);
                        }
                        let ghost prem = m@;
                        let pair = m.remove(ix);
                        let ghost midm = m@;
                        let c = pair.1;
                        m.insert(ix, (pair.0, c + 1));
                        proof {
                            prem.remove_ensures(ix as int);
                            midm.insert_ensures(ix as int, m@[ix as int]);
                            assert forall|k: int| 0 <= k < m@.len() && k != ix implies m@[k]
                                == prem[k] by {
                                if k > ix {
                                    assert(m@[k] == midm[k - 1]);
                                    assert(midm[k - 1] == prem[k]);
                                }
                            }
                            assert(m@[ix as int].0 == prem[ix as int].0);
                            assert(m@[ix as int].1 == c + 1);
                            assert forall|k: int| 0 <= k < m@.len() implies (#[trigger] m@[k]).1
                                as nat == cooccurrence_count(odv.take(i as int), t, m@[k].0@)
                                + count_in_items(iv.take(j + 1), m@[k].0@) by {
                                if k == ix {
                                    assert(count_in_items(iv.take(j + 1), pv) == count_in_items(
                                        iv.take(j as int),
                                        pv,
                                    ) + 1);
                                } else {
                                    assert(m@[k] == prem[k]);
                                    assert(m@[k].0@ != pv);
                                    assert(count_in_items(iv.take(j + 1), m@[k].0@)
                                        == count_in_items(iv.take(j as int), m@[k].0@));
                                }
                            }
                            assert forall|pid2: Seq<char>|
                                cooccurrence_count(odv.take(i as int), t, pid2) + count_in_items(
                                    iv.take(j + 1),
                                    pid2,
                                ) > 0 implies table_has_key(m@, pid2) by {
                                if pid2 == pv {
                                    assert(m@[ix as int].0@ == pv);
                                } else {
                                    assert(count_in_items(iv.take(j + 1), pid2) == count_in_items(
                                        iv.take(j as int),
                                        pid2,
                                    ));
                                    let k0 = choose|k: int|
                                        0 <= k < prem.len() && prem[k].0@ == pid2;
                                    assert(m@[k0] == prem[k0]);
                                }
                            }
                        }
                    },
                    None => {
                        proof {
                            assert(count_in_items(iv.take(j as int), pv) >= 0);
                            if cooccurrence_count(odv.take(i as int), t, pv) + count_in_items(
                                iv.take(j as int),
                                pv,
                            ) > 0 {
                                let k0 = choose|k: int| 0 <= k < m@.len() && m@[k].0@ == pv;
                                assert(m@[k0].0@ != pv);
                            }
                        }
                        let ghost prem = m@;
                        m.push((pid.clone(), 1));
                        proof {
                            assert(m@.len() == prem.len() + 1);
                            assert forall|k: int| 0 <= k < prem.len() implies m@[k]
                                == prem[k] by {}
                            assert(m@[prem.len() as int].0@ == pv);
                            assert(m@[prem.len() as int].1 == 1);
                            assert forall|k: int| 0 <= k < m@.len() implies (#[trigger] m@[k]).1
                                as nat == cooccurrence_count(odv.take(i as int), t, m@[k].0@)
                                + count_in_items(iv.take(j + 1), m@[k].0@) by {
                                if k < prem.len() {
                                    assert(m@[k] == prem[k]);
                                    assert(m@[k].0@ != pv);
                                    assert(count_in_items(iv.take(j + 1), m@[k].0@)
                                        == count_in_items(iv.take(j as int), m@[k].0@));
                                } else {
                                    assert(cooccurrence_count(odv.take(i as int), t, pv)
                                        + count_in_items(iv.take(j as int), pv) == 0);
                                }
                            }
                            assert forall|pid2: Seq<char>|
                                cooccurrence_count(odv.take(i as int), t, pid2) + count_in_items(
                                    iv.take(j + 1),
                                    pid2,
                                ) > 0 implies table_has_key(m@, pid2) by {
                                if pid2 == pv {
                                    assert(m@[prem.len() as int].0@ == pv);
                                } else {
                                    assert(count_in_items(iv.take(j + 1), pid2) == count_in_items(
                                        iv.take(j as int),
                                        pid2,
                                    ));
                                    let k0 = choose|k: int|
                                        0 <= k < prem.len() && prem[k].0@ == pid2;
                                    assert(m@[k0] == prem[k0]);
                                }
                            }
                        }
                    },
                }
                j = j + 1;
            }
            proof {
                assert(iv.take(j as int) =~= iv);
                assert forall|k: int| 0 <= k < m@.len() implies (#[trigger] m@[k]).1 as nat
                    == cooccurrence_count(odv.take(i + 1), t, m@[k].0@) by {
                    lemma_cooccurrence_snoc(odv, i as int, t, m@[k].0@);
                    assert(count_in_items(iv.take(j as int), m@[k].0@) == count_in_items(
                        iv,
                        m@[k].0@,
                    ));
                }
                assert forall|pid: Seq<char>| #[trigger]
                    cooccurrence_count(odv.take(i + 1), t, pid) > 0 implies table_has_key(
                    m@,
                    pid,
                ) by {
                    lemma_cooccurrence_snoc(odv, i as int, t, pid);
                    assert(count_in_items(iv.take(j as int), pid) == count_in_items(iv, pid));
                }
                assert(counts_match(m@, odv.take(i + 1), t));
            }
        } else {
            proof {
                assert forall|k: int| 0 <= k < m@.len() implies (#[trigger] m@[k]).1 as nat
                    == cooccurrence_count(odv.take(i + 1), t, m@[k].0@) by {
                    lemma_cooccurrence_snoc(odv, i as int, t, m@[k].0@);
                }
                assert forall|pid: Seq<char>| #[trigger]
                    cooccurrence_count(odv.take(i + 1), t, pid) > 0 implies table_has_key(
                    m@,
                    pid,
                ) by {
                    lemma_cooccurrence_snoc(odv, i as int, t, pid);
                    assert(cooccurrence_count(odv.take(i as int), t, pid) > 0);
                }
                assert(counts_match(m@, odv.take(i + 1), t));
            }
        }
        i = i + 1;
    }
    proof {
        assert(odv.take(i as int) =~= odv);
    }
    m
}

/// The counts are in descending order.
pub open spec fn sorted_desc(s: Seq<(String, u64)>) -> bool {
    forall|k: int, l: int| 0 <= k < l < s.len() ==> (#[trigger] s[k]).1 >= (#[trigger] s[l]).1
}

/// Sorts the counts table by count, descending. Entries with equal
/// counts keep their first-seen order (the earliest maximal entry is
/// taken first), so the result is deterministic for a fixed input.
fn sort_by_count_desc(input: Vec<(String, u64)>) -> (r: Vec<(String, u64)>)
    requires
        table_keys_distinct(input@),
    ensures
        r@.to_multiset() == input@.to_multiset(),
        r@.len() == input@.len(),
        sorted_desc(r@),
        table_keys_distinct(r@),
{
    let ghost input0 = input@;
    let mut src = input;
    let mut out: Vec<(String, u64)> = Vec::new();
    while src.len() > 0
        invariant
            out@.to_multiset().add(src@.to_multiset()) == input0.to_multiset(),
            out@.len() + src@.len() == input0.len(),
            sorted_desc(out@),
            forall|k: int, l: int|
                0 <= k < out@.len() && 0 <= l < src@.len() ==> (#[trigger] out@[k]).1 >= (
                #[trigger] src@[l]).1,
            table_keys_distinct(out@),
            table_keys_distinct(src@),
            forall|k: int, l: int|
                0 <= k < out@.len() && 0 <= l < src@.len() ==> (#[trigger] out@[k]).0@ != (
                #[trigger] src@[l]).0@,
        decreases src.len(),
    {
        let mut best: usize = 0;
        let mut j: usize = 1;
        while j < src.len()
            invariant
                0 < j <= src@.len(),
                best < j,
                forall|k: int| 0 <= k < j ==> (#[trigger] src@[k]).1 <= src@[best as int].1,
            decreases src@.len() - j,
        {
            if src[j].1 > src[best].1 {
                best = j;
            }
            j = j + 1;
        }
        let ghost presrc = src@;
        let ghost preout = out@;
        let e = src.remove(best);
        out.push(e);
        proof {
            let ev = presrc[best as int];
            presrc.remove_ensures(best as int);
            assert(out@ == preout.push(ev));
            assert(src@.to_multiset() =~= presrc.to_multiset().remove(ev));
            assert(out@.to_multiset() =~= preout.to_multiset().insert(ev));
            assert(presrc.contains(ev));
            assert(presrc.to_multiset().count(ev) > 0);
            assert(out@.to_multiset().add(src@.to_multiset()) =~= input0.to_multiset());
            assert forall|l: int| 0 <= l < src@.len() implies (src@[l] == presrc[l] || src@[l]
                == presrc[l + 1]) by {}
            assert(out@[out@.len() - 1] == ev);
        }
    }
    out
}

/// What the bought-together query promises of its result `r`, stated
/// over views: at most ten entries; never the target itself; every
/// entry has a positive co-occurrence count; counts descend; no entry
/// repeats; and every product with a positive count is either listed
/// or outranked by the tenth (last) entry.
pub open spec fn ranked_result(
    orders: Seq<OrderView>,
    target: Seq<char>,
    r: Seq<Seq<char>>,
) -> bool {
    &&& r.len() <= 10
    &&& forall|k: int| 0 <= k < r.len() ==> (#[trigger] r[k]) != target
    &&& forall|k: int|
        0 <= k < r.len() ==> #[trigger] cooccurrence_count(orders, target, r[k]) > 0
    &&& forall|k: int, l: int|
        0 <= k < l < r.len() ==> #[trigger] cooccurrence_count(orders, target, r[k])
            >= #[trigger] cooccurrence_count(orders, target, r[l])
    &&& forall|k: int, l: int| 0 <= k < l < r.len() ==> (#[trigger] r[k]) != (#[trigger] r[l])
    &&& forall|pid: Seq<char>| #![trigger cooccurrence_count(orders, target, pid)]
        pid != target && cooccurrence_count(orders, target, pid) > 0 ==> (exists|k: int|
            0 <= k < r.len() && r[k] == pid) || (r.len() == 10 && cooccurrence_count(
            orders,
            target,
            pid,
        ) <= cooccurrence_count(orders, target, r[9]))
}

/// The frequency table once the target's own entry is dropped: keys
/// distinct, none the target, each bound to its positive exact count,
/// and a key for every other product with a positive count.
spec fn table_excl(m: Seq<(String, u64)>, orders: Seq<OrderView>, target: Seq<char>) -> bool {
    &&& table_keys_distinct(m)
    &&& forall|k: int| 0 <= k < m.len() ==> (#[trigger] m[k]).0@ != target
    &&& forall|k: int|
        0 <= k < m.len() ==> (#[trigger] m[k]).1 as nat == cooccurrence_count(
            orders,
            target,
            m[k].0@,
        )
    &&& forall|k: int| 0 <= k < m.len() ==> (#[trigger] m[k]).1 > 0
    &&& forall|pid: Seq<char>| #![trigger cooccurrence_count(orders, target, pid)]
        pid != target && cooccurrence_count(orders, target, pid) > 0 ==> table_has_key(m, pid)
}

/// Ranks the products bought together with `target_product_id` across
/// the snapshot: the ids of the products that share an order with the
/// target, most frequently co-occurring first, the target itself
/// excluded, capped at ten entries. A target found in no order yields
/// the empty sequence rather than an error. The order among entries
/// with equal counts is not part of the contract; the implementation
/// keeps first-seen order, so it is deterministic for a fixed input.
pub fn bought_together(orders: &Vec<Order>, target_product_id: &String) -> (r: Vec<String>)
    requires
        total_line_count(orders.deep_view()) <= u64::MAX,
    ensures
        ranked_result(orders.deep_view(), target_product_id@, r.deep_view()),
        (forall|k: int|
            0 <= k < orders.deep_view().len() ==> !order_has_product(
                orders.deep_view()[k],
                target_product_id@,
            )) ==> r@.len() == 0,
{
    let ghost odv = orders.deep_view();
    let ghost t = target_product_id@;
    let mut m = count_cooccurrences(orders, target_product_id);
    let ghost prem = m@;
    // a product is never bought together with itself: drop the
    // target's own entry, where one exists
    match find_key(&m, target_product_id) {
        Some(ix) => {
            m.remove(ix);
            proof {
                prem.remove_ensures(ix as int);
                assert forall|k: int, l: int| 0 <= k < l < m@.len() implies (#[trigger] m@[k]).0@
                    != (#[trigger] m@[l]).0@ by {
                    if l < ix {
                    } else if k < ix {
                        assert(m@[l] == prem[l + 1]);
                    } else {
                        assert(m@[k] == prem[k + 1]);
                        assert(m@[l] == prem[l + 1]);
                    }
                }
                assert forall|k: int| 0 <= k < m@.len() implies (#[trigger] m@[k]).0@ != t
                    && m@[k].1 as nat == cooccurrence_count(odv, t, m@[k].0@) && m@[k].1 > 0 by {
                    if k < ix {
                        assert(m@[k] == prem[k]);
                    } else {
                        assert(m@[k] == prem[k + 1]);
                    }
                }
                assert forall|pid: Seq<char>| #![trigger cooccurrence_count(odv, t, pid)]
                    pid != t && cooccurrence_count(odv, t, pid) > 0 implies table_has_key(
                    m@,
                    pid,
                ) by {
                    let k0 = choose|k: int| 0 <= k < prem.len() && prem[k].0@ == pid;
                    if k0 < ix {
                        assert(m@[k0] == prem[k0]);
                    } else {
                        assert(m@[k0 - 1] == prem[k0]);
                    }
                }
                assert(table_excl(m@, odv, t));
            }
        },
        None => {
            proof {
                assert forall|pid: Seq<char>| #![trigger cooccurrence_count(odv, t, pid)]
                    pid != t && cooccurrence_count(odv, t, pid) > 0 implies table_has_key(
                    m@,
                    pid,
                ) by {}
                assert(table_excl(m@, odv, t));
            }
        },
    }
    let ghost mtab = m@;
    let sorted = sort_by_count_desc(m);
    proof {
        assert forall|k: int| 0 <= k < sorted@.len() implies (#[trigger] sorted@[k]).0@ != t
            && sorted@[k].1 as nat == cooccurrence_count(odv, t, sorted@[k].0@) && sorted@[k].1
            > 0 by {
            assert(sorted@.contains(sorted@[k]));
            assert(sorted@.to_multiset().count(sorted@[k]) > 0);
            assert(mtab.to_multiset().count(sorted@[k]) > 0);
            assert(mtab.contains(sorted@[k]));
            let k0 = choose|k0: int| 0 <= k0 < mtab.len() && mtab[k0] == sorted@[k];
            assert(mtab[k0].0@ != t);
        }
        assert forall|pid: Seq<char>| #![trigger cooccurrence_count(odv, t, pid)]
            pid != t && cooccurrence_count(odv, t, pid) > 0 implies table_has_key(
            sorted@,
            pid,
        ) by {
            assert(table_has_key(mtab, pid));
            let k0 = choose|k0: int| 0 <= k0 < mtab.len() && mtab[k0].0@ == pid;
            assert(mtab.contains(mtab[k0]));
            assert(mtab.to_multiset().count(mtab[k0]) > 0);
            assert(sorted@.to_multiset().count(mtab[k0]) > 0);
            assert(sorted@.contains(mtab[k0]));
            let k1 = choose|k1: int| 0 <= k1 < sorted@.len() && sorted@[k1] == mtab[k0];
            assert(sorted@[k1].0@ == pid);
        }
    }
    let mut r: Vec<String> = Vec::new();
    let mut k: usize = 0;
    while k < sorted.len() && k < 10
        invariant
            k <= sorted@.len(),
            k <= 10,
            r@.len() == k,
            forall|l: int| 0 <= l < k ==> r.deep_view()[l] == sorted@[l].0@,
        decreases sorted@.len() - k,
    {
        let ghost prevr = r@;
        let ghost prevdv = r.deep_view();
        let s = sorted[k].0.clone();
        r.push(s);
        proof {
            assert forall|l: int| 0 <= l < k + 1 implies r.deep_view()[l] == sorted@[l].0@ by {
                if l < k {
                    assert(r@[l] == prevr[l]);
                    assert(prevdv[l] == prevr[l].deep_view());
                } else {
                    assert(r@[l]@ == sorted@[l].0@);
                }
            }
        }
        k = k + 1;
    }
    proof {
        let rv = r.deep_view();
        assert(rv.len() == r@.len());
        assert(rv.len() <= 10);
        assert(rv.len() == k);
        assert(k == sorted@.len() || k == 10);
        assert forall|pid: Seq<char>| #![trigger cooccurrence_count(odv, t, pid)]
            pid != t && cooccurrence_count(odv, t, pid) > 0 implies (exists|l: int|
            0 <= l < rv.len() && rv[l] == pid) || (rv.len() == 10 && cooccurrence_count(
            odv,
            t,
            pid,
        ) <= cooccurrence_count(odv, t, rv[9])) by {
            let k0 = choose|l: int| 0 <= l < sorted@.len() && sorted@[l].0@ == pid;
            if k0 < rv.len() {
                assert(rv[k0] == pid);
            } else {
                assert(rv.len() == 10);
                assert(sorted@[9].1 >= sorted@[k0].1);
                assert(rv[9] == sorted@[9].0@);
            }
        }
        assert(ranked_result(odv, t, rv));
        if forall|l: int| 0 <= l < odv.len() ==> !order_has_product(odv[l], t) {
            if rv.len() > 0 {
                lemma_unknown_target(odv, t, rv[0]);
            }
        }
    }
    r
}

/// The number of lines across all orders, or `None` where it exceeds
/// a machine word; callers use it to establish the bound that
/// `bought_together` asks for.
pub fn total_lines(orders: &Vec<Order>) -> (r: Option<u64>)
    ensures
        match r {
            Some(n) => n as nat == total_line_count(orders.deep_view()),
            None => total_line_count(orders.deep_view()) > u64::MAX,
        },
{
    let ghost odv = orders.deep_view();
    let mut sum: u64 = 0;
    let mut i: usize = 0;
    while i < orders.len()
        invariant
            i <= orders.len(),
            odv == orders.deep_view(),
            sum as nat == total_line_count(odv.take(i as int)),
        decreases orders.len() - i,
    {
        let n = orders[i].items.len();
        proof {
            assert(odv.take(i + 1).drop_last() =~= odv.take(i as int));
            assert(odv.take(i + 1).last() == odv[i as int]);
            assert(odv[i as int].items.len() == n);
        }
        if n as u64 > u64::MAX - sum {
            proof {
                lemma_total_prefix_le(odv, i + 1);
            }
            return None;
        }
        sum = sum + (n as u64);
        i = i + 1;
    }
    proof {
        assert(odv.take(i as int) =~= odv);
    }
    Some(sum)
}

} // verus!

