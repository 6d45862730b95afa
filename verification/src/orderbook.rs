//! The order book: resting orders indexed by id and by price level.
//!
//! One `OrderBook` owns three mutually consistent indexes: a price-sorted
//! vector of ask levels, a price-sorted vector of bid levels, and a flat map
//! from order id to the order's record. Every operation keeps the indexes
//! consistent: an id is in the flat map exactly when its order sits, exactly
//! once, in the level for its own `(side, price)`; no level is ever empty.

use vstd::prelude::*;

use std::collections::HashMap;

use crate::types::{BookError, Order, Side};

verus! {

/// All orders resting at one price on one side, oldest first.
struct Level {
    price: u64,
    orders: Vec<Order>,
}

/// Whether some level in `levels` has price `price`.
spec fn has_price(levels: Seq<Level>, price: u64) -> bool {
    exists|i: int| 0 <= i < levels.len() && levels[i].price == price
}

/// The index of the level with price `price` (meaningful when `has_price`
/// holds and prices are strictly sorted, which makes the index unique).
spec fn price_index(levels: Seq<Level>, price: u64) -> int {
    choose|i: int| 0 <= i < levels.len() && levels[i].price == price
}

/// The FIFO sequence resting at `price`, or empty if no such level.
spec fn orders_at(levels: Seq<Level>, price: u64) -> Seq<Order> {
    if has_price(levels, price) {
        levels[price_index(levels, price)].orders@
    } else {
        Seq::<Order>::empty()
    }
}

/// Level prices are strictly increasing (so each price occurs at most once).
spec fn strictly_sorted(levels: Seq<Level>) -> bool {
    forall|i: int, j: int| 0 <= i < j < levels.len() ==> levels[i].price < levels[j].price
}

/// Well-formedness of one side's level vector: sorted, no empty level, and
/// every order carries the side and the price of the level it sits in.
spec fn levels_wf(levels: Seq<Level>, side: Side) -> bool {
    &&& strictly_sorted(levels)
    &&& forall|i: int| 0 <= i < levels.len() ==> levels[i].orders@.len() > 0
    &&& forall|i: int, k: int|
        0 <= i < levels.len() && 0 <= k < levels[i].orders@.len() ==> {
            &&& (#[trigger] levels[i].orders@[k]).side == side
            &&& levels[i].orders@[k].price == levels[i].price
        }
}

/// Within each level, order ids are distinct.
spec fn distinct_ids(levels: Seq<Level>) -> bool {
    forall|i: int, k1: int, k2: int|
        0 <= i < levels.len() && 0 <= k1 < k2 < levels[i].orders@.len()
            ==> (#[trigger] levels[i].orders@[k1]).id != (#[trigger] levels[i].orders@[k2]).id
}

/// Every order resting in `levels` has its own record in the flat map `m`.
spec fn ids_in(levels: Seq<Level>, m: Map<u64, Order>) -> bool {
    forall|i: int, k: int|
        0 <= i < levels.len() && 0 <= k < levels[i].orders@.len() ==> {
            &&& m.contains_key((#[trigger] levels[i].orders@[k]).id)
            &&& m[levels[i].orders@[k].id] == levels[i].orders@[k]
        }
}

/// Whether the order record `o` sits somewhere in `levels`.
spec fn side_contains(levels: Seq<Level>, o: Order) -> bool {
    exists|i: int, k: int|
        0 <= i < levels.len() && 0 <= k < levels[i].orders@.len()
            && (#[trigger] levels[i].orders@[k]) == o
}

/// `after` is `before` with the one order whose id is `id` taken out and the
/// relative order of everything else untouched.
pub open spec fn removed_id_at(before: Seq<Order>, after: Seq<Order>, id: u64) -> bool {
    exists|k: int| 0 <= k < before.len() && (#[trigger] before[k]).id == id && after == before.remove(k)
}

/// No order with id `id` rests anywhere in `levels`.
spec fn id_absent(levels: Seq<Level>, id: u64) -> bool {
    forall|i: int, k: int|
        0 <= i < levels.len() && 0 <= k < levels[i].orders@.len()
            ==> (#[trigger] levels[i].orders@[k]).id != id
}

/// Appends `order` to the tail of the level at its price, creating the level
/// at its sorted position if absent. Every other level is left untouched.
#[verifier::rlimit(100)]
fn push_level(levels: &mut Vec<Level>, order: Order)
    requires
        levels_wf(old(levels)@, order.side),
        distinct_ids(old(levels)@),
        id_absent(old(levels)@, order.id),
    ensures
        levels_wf(final(levels)@, order.side),
        distinct_ids(final(levels)@),
        orders_at(final(levels)@, order.price) == orders_at(old(levels)@, order.price).push(order),
        forall|p: u64|
            p != order.price ==> orders_at(final(levels)@, p) == orders_at(old(levels)@, p),
        forall|o: Order|
            side_contains(final(levels)@, o) <==> (side_contains(old(levels)@, o) || o == order),
{
    let mut i: usize = 0;
    while i < levels.len() && levels[i].price < order.price
        invariant
            levels@ == old(levels)@,
            i <= levels@.len(),
            forall|j: int| 0 <= j < i ==> levels@[j].price < order.price,
        decreases levels@.len() - i,
    {
        i += 1;
    }
    if i < levels.len() && levels[i].price == order.price {
        proof {
            lemma_price_index(levels@, i as int);
        }
        levels[i].orders.push(order);
        proof {
            let oldl = old(levels)@;
            let newl = levels@;
            let ii = i as int;
            assert(newl =~= oldl.update(ii, newl[ii]));
            assert(newl[ii].price == oldl[ii].price);
            assert(newl[ii].orders@ == oldl[ii].orders@.push(order));
            assert(strictly_sorted(newl));
            lemma_price_index(newl, ii);
            assert(orders_at(newl, order.price) == orders_at(oldl, order.price).push(order));
            assert forall|p: u64| p != order.price implies orders_at(newl, p) == orders_at(
                oldl,
                p,
            ) by {
                if has_price(newl, p) {
                    let j = price_index(newl, p);
                    assert(0 <= j < newl.len() && newl[j].price == p);
                    assert(j != ii);
                    lemma_price_index(oldl, j);
                    lemma_price_index(newl, j);
                } else {
                    if has_price(oldl, p) {
                        let j = price_index(oldl, p);
                        assert(newl[j].price == p);
                        assert(has_price(newl, p));
                    }
                }
            }
            assert forall|o: Order|
                side_contains(newl, o) <==> (side_contains(oldl, o) || o == order) by {
                if side_contains(newl, o) {
                    let (a, b) = choose|a: int, b: int|
                        0 <= a < newl.len() && 0 <= b < newl[a].orders@.len()
                            && (#[trigger] newl[a].orders@[b]) == o;
                    if a == ii && b == oldl[ii].orders@.len() {
                        assert(o == order);
                    } else {
                        assert(oldl[a].orders@[b] == o);
                        assert(side_contains(oldl, o));
                    }
                }
                if side_contains(oldl, o) {
                    let (a, b) = choose|a: int, b: int|
                        0 <= a < oldl.len() && 0 <= b < oldl[a].orders@.len()
                            && (#[trigger] oldl[a].orders@[b]) == o;
                    assert(newl[a].orders@[b] == o);
                    assert(side_contains(newl, o));
                }
                if o == order {
                    assert(newl[ii].orders@[oldl[ii].orders@.len() as int] == o);
                    assert(side_contains(newl, o));
                }
            }
        }
    } else {
        proof {
            assert forall|j: int|
                i <= j < old(levels)@.len() implies old(levels)@[j].price > order.price by {
                if i < j {
                    assert(old(levels)@[i as int].price < old(levels)@[j].price);
                }
            }
            assert(!has_price(old(levels)@, order.price)) by {
                if has_price(old(levels)@, order.price) {
                    let j = price_index(old(levels)@, order.price);
                    assert(0 <= j < old(levels)@.len() && old(levels)@[j].price == order.price);
                }
            }
        }
        let mut orders: Vec<Order> = Vec::new();
        orders.push(order);
        let ghost new_level = Level { price: order.price, orders: orders };
        levels.insert(i, Level { price: order.price, orders });
        proof {
            let oldl = old(levels)@;
            let newl = levels@;
            let ii = i as int;
            assert(newl == oldl.insert(ii, new_level));
            oldl.insert_ensures(ii, new_level);
            assert(newl[ii].orders@ == Seq::<Order>::empty().push(order));
            assert forall|a: int, b: int|
                0 <= a < b < newl.len() implies newl[a].price < newl[b].price by {
                if b < ii {
                    assert(newl[a] == oldl[a] && newl[b] == oldl[b]);
                } else if a < ii && b == ii {
                    assert(newl[a] == oldl[a]);
                } else if a < ii && b > ii {
                    assert(newl[a] == oldl[a] && newl[b] == oldl[b - 1]);
                } else if a == ii {
                    assert(newl[b] == oldl[b - 1]);
                } else {
                    assert(newl[a] == oldl[a - 1] && newl[b] == oldl[b - 1]);
                }
            }
            assert(strictly_sorted(newl));
            lemma_price_index(newl, ii);
            assert(orders_at(oldl, order.price) == Seq::<Order>::empty());
            assert(orders_at(newl, order.price) == orders_at(oldl, order.price).push(order));
            assert forall|p: u64| p != order.price implies orders_at(newl, p) == orders_at(
                oldl,
                p,
            ) by {
                if has_price(newl, p) {
                    let j = price_index(newl, p);
                    assert(0 <= j < newl.len() && newl[j].price == p);
                    assert(j != ii);
                    if j < ii {
                        assert(oldl[j].price == p);
                        lemma_price_index(oldl, j);
                        lemma_price_index(newl, j);
                    } else {
                        assert(newl[j] == oldl[j - 1]);
                        lemma_price_index(oldl, j - 1);
                        lemma_price_index(newl, j);
                    }
                } else {
                    if has_price(oldl, p) {
                        let j = price_index(oldl, p);
                        assert(0 <= j < oldl.len() && oldl[j].price == p);
                        if j < ii {
                            assert(newl[j].price == p);
                        } else {
                            assert(newl[j + 1].price == p);
                        }
                        assert(has_price(newl, p));
                    }
                }
            }
            assert forall|o: Order|
                side_contains(newl, o) <==> (side_contains(oldl, o) || o == order) by {
                if side_contains(newl, o) {
                    let (a, b) = choose|a: int, b: int|
                        0 <= a < newl.len() && 0 <= b < newl[a].orders@.len()
                            && (#[trigger] newl[a].orders@[b]) == o;
                    if a == ii {
                        assert(o == order);
                    } else if a < ii {
                        assert(oldl[a].orders@[b] == o);
                        assert(side_contains(oldl, o));
                    } else {
                        assert(oldl[a - 1].orders@[b] == o);
                        assert(side_contains(oldl, o));
                    }
                }
                if side_contains(oldl, o) {
                    let (a, b) = choose|a: int, b: int|
                        0 <= a < oldl.len() && 0 <= b < oldl[a].orders@.len()
                            && (#[trigger] oldl[a].orders@[b]) == o;
                    if a < ii {
                        assert(newl[a].orders@[b] == o);
                    } else {
                        assert(newl[a + 1].orders@[b] == o);
                    }
                    assert(side_contains(newl, o));
                }
                if o == order {
                    assert(newl[ii].orders@[0] == o);
                    assert(side_contains(newl, o));
                }
            }
        }
    }
}

/// Removes the one order carrying `o.id` (which must be the record `o`,
/// resting at its own price level) and drops the level if it became empty.
/// Every other order keeps its position relative to the rest.
#[verifier::rlimit(100)]
fn remove_level_order(levels: &mut Vec<Level>, o: Order)
    requires
        levels_wf(old(levels)@, o.side),
        distinct_ids(old(levels)@),
        side_contains(old(levels)@, o),
        forall|i: int, k: int|
            0 <= i < old(levels)@.len() && 0 <= k < old(levels)@[i].orders@.len()
                && (#[trigger] old(levels)@[i].orders@[k]).id == o.id
                ==> old(levels)@[i].orders@[k] == o,
    ensures
        levels_wf(final(levels)@, o.side),
        distinct_ids(final(levels)@),
        removed_id_at(
            orders_at(old(levels)@, o.price),
            orders_at(final(levels)@, o.price),
            o.id,
        ),
        forall|p: u64|
            p != o.price ==> orders_at(final(levels)@, p) == orders_at(old(levels)@, p),
        forall|x: Order|
            side_contains(final(levels)@, x) <==> (side_contains(old(levels)@, x) && x.id
                != o.id),
{
    proof {
        let (a, b) = choose|a: int, b: int|
            0 <= a < old(levels)@.len() && 0 <= b < old(levels)@[a].orders@.len()
                && (#[trigger] old(levels)@[a].orders@[b]) == o;
        assert(old(levels)@[a].price == o.price);
        lemma_price_index(old(levels)@, a);
    }
    let mut i: usize = 0;
    while i < levels.len() && levels[i].price != o.price
        invariant
            levels@ == old(levels)@,
            i <= levels@.len(),
            forall|j: int| 0 <= j < i ==> levels@[j].price != o.price,
        decreases levels@.len() - i,
    {
        i += 1;
    }
    proof {
        if i == levels@.len() {
            assert(!has_price(levels@, o.price));
        }
        assert(i < levels@.len() && levels@[i as int].price == o.price);
        lemma_price_index(levels@, i as int);
        let (a, b) = choose|a: int, b: int|
            0 <= a < levels@.len() && 0 <= b < levels@[a].orders@.len()
                && (#[trigger] levels@[a].orders@[b]) == o;
        assert(levels@[a].price == o.price);
        lemma_price_index(levels@, a);
        assert(a == i as int);
    }
    let mut k: usize = 0;
    while k < levels[i].orders.len() && levels[i].orders[k].id != o.id
        invariant
            levels@ == old(levels)@,
            i < levels@.len(),
            levels@[i as int].price == o.price,
            k <= levels@[i as int].orders@.len(),
            forall|j: int| 0 <= j < k ==> levels@[i as int].orders@[j].id != o.id,
        decreases levels@[i as int].orders@.len() - k,
    {
        k += 1;
    }
    proof {
        let (a, b) = choose|a: int, b: int|
            0 <= a < levels@.len() && 0 <= b < levels@[a].orders@.len()
                && (#[trigger] levels@[a].orders@[b]) == o;
        assert(levels@[a].price == o.price);
        lemma_price_index(levels@, a);
        assert(a == i as int);
        assert(k < levels@[i as int].orders@.len());
    }
    let ghost oldl = levels@;
    let ghost ii = i as int;
    let ghost kk = k as int;
    proof {
        oldl[ii].orders@.remove_ensures(kk);
    }
    let _ = levels[i].orders.remove(k);
    if levels[i].orders.len() == 0 {
        let ghost midl = levels@;
        proof {
            assert(oldl[ii].orders@.len() == 1);
            midl.remove_ensures(ii);
        }
        let _ = levels.remove(i);
        proof {
            let newl = levels@;
            assert(forall|j: int| 0 <= j < ii ==> newl[j] == oldl[j]);
            assert(forall|j: int| ii <= j < newl.len() ==> newl[j] == oldl[j + 1]);
            assert(strictly_sorted(newl));
            assert(levels_wf(newl, o.side));
            assert(distinct_ids(newl));
            assert(!has_price(newl, o.price)) by {
                if has_price(newl, o.price) {
                    let j = price_index(newl, o.price);
                    assert(0 <= j < newl.len() && newl[j].price == o.price);
                    if j < ii {
                        assert(oldl[j].price < oldl[ii].price);
                    } else {
                        assert(oldl[ii].price < oldl[j + 1].price);
                    }
                }
            }
            assert(orders_at(newl, o.price) == Seq::<Order>::empty());
            assert(orders_at(oldl, o.price) == oldl[ii].orders@);
            assert(oldl[ii].orders@.remove(kk) =~= Seq::<Order>::empty());
            assert(removed_id_at(orders_at(oldl, o.price), orders_at(newl, o.price), o.id));
            assert forall|p: u64| p != o.price implies orders_at(newl, p) == orders_at(
                oldl,
                p,
            ) by {
                if has_price(newl, p) {
                    let j = price_index(newl, p);
                    assert(0 <= j < newl.len() && newl[j].price == p);
                    if j < ii {
                        lemma_price_index(oldl, j);
                        lemma_price_index(newl, j);
                    } else {
                        assert(newl[j] == oldl[j + 1]);
                        lemma_price_index(oldl, j + 1);
                        lemma_price_index(newl, j);
                    }
                } else {
                    if has_price(oldl, p) {
                        let j = price_index(oldl, p);
                        assert(0 <= j < oldl.len() && oldl[j].price == p);
                        assert(j != ii);
                        if j < ii {
                            assert(newl[j].price == p);
                        } else {
                            assert(newl[j - 1].price == p);
                        }
                        assert(has_price(newl, p));
                    }
                }
            }
            assert forall|x: Order|
                side_contains(newl, x) <==> (side_contains(oldl, x) && x.id != o.id) by {
                if side_contains(newl, x) {
                    let (a, b) = choose|a: int, b: int|
                        0 <= a < newl.len() && 0 <= b < newl[a].orders@.len()
                            && (#[trigger] newl[a].orders@[b]) == x;
                    if a < ii {
                        assert(oldl[a].orders@[b] == x);
                        assert(oldl[a].price != o.price);
                    } else {
                        assert(oldl[a + 1].orders@[b] == x);
                        assert(oldl[a + 1].price != o.price);
                    }
                    assert(side_contains(oldl, x));
                    assert(x.price != o.price);
                    assert(x.id != o.id);
                }
                if side_contains(oldl, x) && x.id != o.id {
                    let (a, b) = choose|a: int, b: int|
                        0 <= a < oldl.len() && 0 <= b < oldl[a].orders@.len()
                            && (#[trigger] oldl[a].orders@[b]) == x;
                    assert(a != ii);
                    if a < ii {
                        assert(newl[a].orders@[b] == x);
                    } else {
                        assert(newl[a - 1].orders@[b] == x);
                    }
                    assert(side_contains(newl, x));
                }
            }
        }
    } else {
        proof {
            let newl = levels@;
            assert(newl =~= oldl.update(ii, newl[ii]));
            assert(newl[ii].price == o.price);
            assert(newl[ii].orders@ == oldl[ii].orders@.remove(kk));
            assert(strictly_sorted(newl));
            assert(levels_wf(newl, o.side));
            assert(distinct_ids(newl)) by {
                assert forall|a: int, k1: int, k2: int|
                    0 <= a < newl.len() && 0 <= k1 < k2 < newl[a].orders@.len()
                        implies (#[trigger] newl[a].orders@[k1]).id != (
                    #[trigger] newl[a].orders@[k2]).id by {
                    if a == ii {
                        let j1: int = if k1 < kk { k1 } else { k1 + 1 };
                        let j2: int = if k2 < kk { k2 } else { k2 + 1 };
                        assert(newl[a].orders@[k1] == oldl[ii].orders@[j1]);
                        assert(newl[a].orders@[k2] == oldl[ii].orders@[j2]);
                    }
                }
            }
            lemma_price_index(newl, ii);
            assert(orders_at(newl, o.price) == orders_at(oldl, o.price).remove(kk));
            assert(removed_id_at(orders_at(oldl, o.price), orders_at(newl, o.price), o.id));
            assert forall|p: u64| p != o.price implies orders_at(newl, p) == orders_at(
                oldl,
                p,
            ) by {
                if has_price(newl, p) {
                    let j = price_index(newl, p);
                    assert(0 <= j < newl.len() && newl[j].price == p);
                    assert(j != ii);
                    lemma_price_index(oldl, j);
                    lemma_price_index(newl, j);
                } else {
                    if has_price(oldl, p) {
                        let j = price_index(oldl, p);
                        assert(newl[j].price == p);
                        assert(has_price(newl, p));
                    }
                }
            }
            assert forall|x: Order|
                side_contains(newl, x) <==> (side_contains(oldl, x) && x.id != o.id) by {
                if side_contains(newl, x) {
                    let (a, b) = choose|a: int, b: int|
                        0 <= a < newl.len() && 0 <= b < newl[a].orders@.len()
                            && (#[trigger] newl[a].orders@[b]) == x;
                    if a == ii {
                        let j: int = if b < kk { b } else { b + 1 };
                        assert(oldl[ii].orders@[j] == x);
                        assert(j != kk);
                        assert(oldl[ii].orders@[kk].id == o.id);
                        assert(x.id != o.id);
                    } else {
                        assert(oldl[a].orders@[b] == x);
                        assert(oldl[a].price != o.price);
                        assert(x.price != o.price);
                        assert(x.id != o.id);
                    }
                    assert(side_contains(oldl, x));
                }
                if side_contains(oldl, x) && x.id != o.id {
                    let (a, b) = choose|a: int, b: int|
                        0 <= a < oldl.len() && 0 <= b < oldl[a].orders@.len()
                            && (#[trigger] oldl[a].orders@[b]) == x;
                    if a == ii {
                        assert(b != kk);
                        if b < kk {
                            assert(newl[ii].orders@[b] == x);
                        } else {
                            assert(newl[ii].orders@[b - 1] == x);
                        }
                    } else {
                        assert(newl[a].orders@[b] == x);
                    }
                    assert(side_contains(newl, x));
                }
            }
        }
    }
}

/// Under strict sorting a price occurs in at most one level, so the level
/// found at `i` is the one `price_index` picks.
proof fn lemma_price_index(levels: Seq<Level>, i: int)
    requires
        strictly_sorted(levels),
        0 <= i < levels.len(),
    ensures
        has_price(levels, levels[i].price),
        price_index(levels, levels[i].price) == i,
{
    assert(has_price(levels, levels[i].price));
    let j = price_index(levels, levels[i].price);
    assert(0 <= j < levels.len() && levels[j].price == levels[i].price);
    if j < i {
        assert(levels[j].price < levels[i].price);
    }
    if i < j {
        assert(levels[i].price < levels[j].price);
    }
}

/// `o` sits at exactly one position of `s`: one index holds it, and no other
/// index holds its id.
pub open spec fn appears_exactly_once(s: Seq<Order>, o: Order) -> bool {
    exists|k: int|
        0 <= k < s.len() && (#[trigger] s[k]) == o && (forall|k2: int|
            0 <= k2 < s.len() && k2 != k ==> (#[trigger] s[k2]).id != o.id)
}

/// Excising one order by id keeps the relative order of every other pair:
/// two orders that both survive a cancellation stand in the same order
/// afterwards as before, so a level stays FIFO across cancellations.
pub proof fn lemma_removal_keeps_fifo(
    before: Seq<Order>,
    after: Seq<Order>,
    id: u64,
    i: int,
    j: int,
)
    requires
        removed_id_at(before, after, id),
        0 <= i < j < before.len(),
        before[i].id != id,
        before[j].id != id,
    ensures
        exists|i2: int, j2: int|
            0 <= i2 < j2 < after.len() && (#[trigger] after[i2]) == before[i] && (
            #[trigger] after[j2]) == before[j],
{
    let k = choose|k: int|
        0 <= k < before.len() && (#[trigger] before[k]).id == id && after == before.remove(k);
    before.remove_ensures(k);
    let i2: int = if i < k {
        i
    } else {
        i - 1
    };
    let j2: int = if j < k {
        j
    } else {
        j - 1
    };
    assert(0 <= i2 < j2 < after.len() && after[i2] == before[i] && after[j2] == before[j]);
}

/// The resting-order store for one instrument.
pub struct OrderBook {
    asks: Vec<Level>,
    bids: Vec<Level>,
    orders: HashMap<u64, Order>,
}

impl OrderBook {
    /// The level vector of one side.
    spec fn side_levels(&self, side: Side) -> Seq<Level> {
        match side {
            Side::Ask => self.asks@,
            Side::Bid => self.bids@,
        }
    }

    /// The three indexes agree: see the module doc.
    pub closed spec fn wf(&self) -> bool {
        &&& levels_wf(self.asks@, Side::Ask)
        &&& levels_wf(self.bids@, Side::Bid)
        &&& distinct_ids(self.asks@)
        &&& distinct_ids(self.bids@)
        &&& ids_in(self.asks@, self.orders@)
        &&& ids_in(self.bids@, self.orders@)
        &&& forall|id: u64|
            self.orders@.contains_key(id) ==> {
                let o = self.orders@[id];
                &&& o.id == id
                &&& side_contains(self.side_levels(o.side), o)
            }
    }

    /// The record resting under `id`, if any.
    pub closed spec fn spec_get(&self, id: u64) -> Option<Order> {
        if self.orders@.contains_key(id) {
            Some(self.orders@[id])
        } else {
            None
        }
    }

    /// Whether an order with this id is resting.
    pub open spec fn spec_contains(&self, id: u64) -> bool {
        self.spec_get(id) is Some
    }

    /// The FIFO sequence resting at `(price, side)`; empty if no such level.
    pub closed spec fn spec_orders_at(&self, price: u64, side: Side) -> Seq<Order> {
        orders_at(self.side_levels(side), price)
    }

    /// An empty book.
    pub fn new() -> (r: OrderBook)
        ensures
            r.wf(),
            forall|id: u64| r.spec_get(id) is None,
            forall|price: u64, side: Side| r.spec_orders_at(price, side) == Seq::<Order>::empty(),
    {
        OrderBook { asks: Vec::new(), bids: Vec::new(), orders: HashMap::new() }
    }

    /// Adds a new resting order at the tail of its `(side, price)` level,
    /// creating the level if absent. Fails with `DuplicateId`, touching
    /// nothing, if the id is already resting.
    pub fn add_order(&mut self, order: Order) -> (r: Result<(), BookError>)
        requires
            old(self).wf(),
        ensures
            final(self).wf(),
            old(self).spec_contains(order.id) ==> r == Err::<(), BookError>(BookError::DuplicateId)
                && *final(self) == *old(self),
            !old(self).spec_contains(order.id) ==> {
                &&& r == Ok::<(), BookError>(())
                &&& final(self).spec_get(order.id) == Some(order)
                &&& forall|id: u64|
                    id != order.id ==> final(self).spec_get(id) == old(self).spec_get(id)
                &&& final(self).spec_orders_at(order.price, order.side) == old(self).spec_orders_at(
                    order.price,
                    order.side,
                ).push(order)
                &&& forall|p: u64, s: Side|
                    p != order.price || s != order.side ==> final(self).spec_orders_at(p, s)
                        == old(self).spec_orders_at(p, s)
            },
    {
        if self.orders.contains_key(&order.id) {
            return Err(BookError::DuplicateId);
        }
        proof {
            assert forall|i: int, k: int|
                0 <= i < self.asks@.len() && 0 <= k < self.asks@[i].orders@.len()
                    implies (#[trigger] self.asks@[i].orders@[k]).id != order.id by {
                assert(self.orders@.contains_key(self.asks@[i].orders@[k].id));
            }
            assert forall|i: int, k: int|
                0 <= i < self.bids@.len() && 0 <= k < self.bids@[i].orders@.len()
                    implies (#[trigger] self.bids@[i].orders@[k]).id != order.id by {
                assert(self.orders@.contains_key(self.bids@[i].orders@[k].id));
            }
        }
        match order.side {
            Side::Ask => push_level(&mut self.asks, order),
            Side::Bid => push_level(&mut self.bids, order),
        }
        self.orders.insert(order.id, order);
        proof {
            let oldb = *old(self);
            let newb = *self;
            assert(newb.orders@ == oldb.orders@.insert(order.id, order));
            assert forall|i: int, k: int|
                0 <= i < newb.asks@.len() && 0 <= k < newb.asks@[i].orders@.len() implies {
                let x = #[trigger] newb.asks@[i].orders@[k];
                newb.orders@.contains_key(x.id) && newb.orders@[x.id] == x
            } by {
                let x = newb.asks@[i].orders@[k];
                assert(side_contains(newb.asks@, x));
                if x != order {
                    assert(side_contains(oldb.asks@, x));
                    let (a, b) = choose|a: int, b: int|
                        0 <= a < oldb.asks@.len() && 0 <= b < oldb.asks@[a].orders@.len()
                            && (#[trigger] oldb.asks@[a].orders@[b]) == x;
                    assert(oldb.orders@.contains_key(x.id) && oldb.orders@[x.id] == x);
                    assert(x.id != order.id);
                }
            }
            assert forall|i: int, k: int|
                0 <= i < newb.bids@.len() && 0 <= k < newb.bids@[i].orders@.len() implies {
                let x = #[trigger] newb.bids@[i].orders@[k];
                newb.orders@.contains_key(x.id) && newb.orders@[x.id] == x
            } by {
                let x = newb.bids@[i].orders@[k];
                assert(side_contains(newb.bids@, x));
                if x != order {
                    assert(side_contains(oldb.bids@, x));
                    let (a, b) = choose|a: int, b: int|
                        0 <= a < oldb.bids@.len() && 0 <= b < oldb.bids@[a].orders@.len()
                            && (#[trigger] oldb.bids@[a].orders@[b]) == x;
                    assert(oldb.orders@.contains_key(x.id) && oldb.orders@[x.id] == x);
                    assert(x.id != order.id);
                }
            }
            assert(ids_in(newb.asks@, newb.orders@));
            assert(ids_in(newb.bids@, newb.orders@));
            assert forall|id: u64| newb.orders@.contains_key(id) implies {
                let o = newb.orders@[id];
                o.id == id && side_contains(newb.side_levels(o.side), o)
            } by {
                let o = newb.orders@[id];
                if id == order.id {
                    assert(o == order);
                    assert(side_contains(newb.side_levels(order.side), order));
                } else {
                    assert(oldb.orders@.contains_key(id) && oldb.orders@[id] == o);
                    assert(side_contains(oldb.side_levels(o.side), o));
                    if o.side == order.side {
                        assert(side_contains(newb.side_levels(o.side), o));
                    } else {
                        assert(newb.side_levels(o.side) == oldb.side_levels(o.side));
                    }
                }
            }
            assert(newb.wf());
        }
        Ok(())
    }

    /// Cancels the resting order with this id and returns its final record.
    /// Fails with `NotFound`, touching nothing, if the id is not resting.
    /// Removal excises the one matching order; every other order keeps its
    /// place, and a level emptied by the removal is dropped at once.
    pub fn cancel_order(&mut self, order_id: u64) -> (r: Result<Order, BookError>)
        requires
            old(self).wf(),
        ensures
            final(self).wf(),
            !old(self).spec_contains(order_id) ==> r == Err::<Order, BookError>(BookError::NotFound)
                && *final(self) == *old(self),
            old(self).spec_contains(order_id) ==> {
                let o = old(self).spec_get(order_id)->Some_0;
                &&& r == Ok::<Order, BookError>(o)
                &&& final(self).spec_get(order_id) is None
                &&& forall|id: u64|
                    id != order_id ==> final(self).spec_get(id) == old(self).spec_get(id)
                &&& removed_id_at(
                    old(self).spec_orders_at(o.price, o.side),
                    final(self).spec_orders_at(o.price, o.side),
                    order_id,
                )
                &&& forall|j: int|
                    0 <= j < final(self).spec_orders_at(o.price, o.side).len()
                        ==> final(self).spec_orders_at(o.price, o.side)[j].id != order_id
                &&& forall|p: u64, s: Side|
                    p != o.price || s != o.side ==> final(self).spec_orders_at(p, s)
                        == old(self).spec_orders_at(p, s)
            },
    {
        let o: Order = match self.orders.get(&order_id) {
            Some(o) => *o,
            None => {
                return Err(BookError::NotFound);
            },
        };
        proof {
            assert(o == old(self).spec_get(order_id)->Some_0);
            assert(o.id == order_id);
            assert forall|i: int, k: int|
                0 <= i < self.asks@.len() && 0 <= k < self.asks@[i].orders@.len()
                    && (#[trigger] self.asks@[i].orders@[k]).id == o.id
                    implies self.asks@[i].orders@[k] == o by {
                assert(self.orders@[self.asks@[i].orders@[k].id] == self.asks@[i].orders@[k]);
            }
            assert forall|i: int, k: int|
                0 <= i < self.bids@.len() && 0 <= k < self.bids@[i].orders@.len()
                    && (#[trigger] self.bids@[i].orders@[k]).id == o.id
                    implies self.bids@[i].orders@[k] == o by {
                assert(self.orders@[self.bids@[i].orders@[k].id] == self.bids@[i].orders@[k]);
            }
        }
        self.orders.remove(&order_id);
        match o.side {
            Side::Ask => remove_level_order(&mut self.asks, o),
            Side::Bid => remove_level_order(&mut self.bids, o),
        }
        proof {
            let oldb = *old(self);
            let newb = *self;
            assert(newb.orders@ == oldb.orders@.remove(order_id));
            assert forall|i: int, k: int|
                0 <= i < newb.asks@.len() && 0 <= k < newb.asks@[i].orders@.len() implies {
                let x = #[trigger] newb.asks@[i].orders@[k];
                newb.orders@.contains_key(x.id) && newb.orders@[x.id] == x
            } by {
                let x = newb.asks@[i].orders@[k];
                assert(side_contains(newb.asks@, x));
                assert(side_contains(oldb.asks@, x) && x.id != o.id);
                let (a, b) = choose|a: int, b: int|
                    0 <= a < oldb.asks@.len() && 0 <= b < oldb.asks@[a].orders@.len()
                        && (#[trigger] oldb.asks@[a].orders@[b]) == x;
                assert(oldb.orders@.contains_key(x.id) && oldb.orders@[x.id] == x);
            }
            assert forall|i: int, k: int|
                0 <= i < newb.bids@.len() && 0 <= k < newb.bids@[i].orders@.len() implies {
                let x = #[trigger] newb.bids@[i].orders@[k];
                newb.orders@.contains_key(x.id) && newb.orders@[x.id] == x
            } by {
                let x = newb.bids@[i].orders@[k];
                assert(side_contains(newb.bids@, x));
                assert(side_contains(oldb.bids@, x) && x.id != o.id);
                let (a, b) = choose|a: int, b: int|
                    0 <= a < oldb.bids@.len() && 0 <= b < oldb.bids@[a].orders@.len()
                        && (#[trigger] oldb.bids@[a].orders@[b]) == x;
                assert(oldb.orders@.contains_key(x.id) && oldb.orders@[x.id] == x);
            }
            assert(ids_in(newb.asks@, newb.orders@));
            assert(ids_in(newb.bids@, newb.orders@));
            assert forall|id: u64| newb.orders@.contains_key(id) implies {
                let o2 = newb.orders@[id];
                o2.id == id && side_contains(newb.side_levels(o2.side), o2)
            } by {
                let o2 = newb.orders@[id];
                assert(oldb.orders@.contains_key(id) && oldb.orders@[id] == o2);
                assert(side_contains(oldb.side_levels(o2.side), o2));
                assert(o2.id == id && id != order_id);
                if o2.side == o.side {
                    assert(side_contains(newb.side_levels(o2.side), o2));
                } else {
                    assert(newb.side_levels(o2.side) == oldb.side_levels(o2.side));
                }
            }
            assert(newb.wf());
            assert forall|j: int|
                0 <= j < newb.spec_orders_at(o.price, o.side).len()
                    implies newb.spec_orders_at(o.price, o.side)[j].id != order_id by {
                let lv = newb.side_levels(o.side);
                if has_price(lv, o.price) {
                    let x = lv[price_index(lv, o.price)].orders@[j];
                    assert(side_contains(lv, x));
                    assert(x.id != o.id);
                }
            }
        }
        Ok(o)
    }

    /// The current record of a resting order, or `None` if the id is absent.
    pub fn get_order(&self, order_id: u64) -> (r: Option<&Order>)
        ensures
            match r {
                Some(o) => self.spec_get(order_id) == Some(*o),
                None => self.spec_get(order_id) is None,
            },
    {
        self.orders.get(&order_id)
    }

    /// A snapshot of the price level at `(price, side)`, oldest order first;
    /// empty if no order rests there. The copy does not alias book storage.
    pub fn orders_at_price(&self, price: u64, side: Side) -> (r: Vec<Order>)
        requires
            self.wf(),
        ensures
            r@ == self.spec_orders_at(price, side),
    {
        let levels: &Vec<Level> = match side {
            Side::Ask => &self.asks,
            Side::Bid => &self.bids,
        };
        let mut i: usize = 0;
        while i < levels.len()
            invariant
                levels@ == self.side_levels(side),
                self.wf(),
                i <= levels@.len(),
                forall|j: int| 0 <= j < i ==> levels@[j].price != price,
            decreases levels@.len() - i,
        {
            if levels[i].price == price {
                proof {
                    lemma_price_index(levels@, i as int);
                }
                let level_orders: &Vec<Order> = &levels[i].orders;
                let mut out: Vec<Order> = Vec::new();
                let mut k: usize = 0;
                while k < level_orders.len()
                    invariant
                        k <= level_orders@.len(),
                        out@ == level_orders@.subrange(0, k as int),
                    decreases level_orders@.len() - k,
                {
                    out.push(level_orders[k]);
                    k += 1;
                }
                proof {
                    assert(out@ =~= level_orders@);
                }
                return out;
            }
            i += 1;
        }
        assert(!has_price(levels@, price));
        Vec::new()
    }

    /// The highest bid price with at least one resting order, if any.
    pub fn best_bid(&self) -> (r: Option<u64>)
        requires
            self.wf(),
        ensures
            match r {
                None => forall|p: u64| self.spec_orders_at(p, Side::Bid).len() == 0,
                Some(p) => self.spec_orders_at(p, Side::Bid).len() > 0 && forall|q: u64|
                    self.spec_orders_at(q, Side::Bid).len() > 0 ==> q <= p,
            },
    {
        if self.bids.len() == 0 {
            assert forall|p: u64| self.spec_orders_at(p, Side::Bid).len() == 0 by {
                assert(!has_price(self.bids@, p));
            }
            None
        } else {
            let n = self.bids.len();
            let p = self.bids[n - 1].price;
            proof {
                lemma_price_index(self.bids@, n - 1 as int);
                assert forall|q: u64| self.spec_orders_at(q, Side::Bid).len() > 0 implies q <= p by {
                    assert(has_price(self.bids@, q));
                    let i = price_index(self.bids@, q);
                    assert(0 <= i < self.bids@.len() && self.bids@[i].price == q);
                    if i < n - 1 {
                        assert(self.bids@[i].price < self.bids@[n - 1 as int].price);
                    }
                }
            }
            Some(p)
        }
    }

    /// The lowest ask price with at least one resting order, if any.
    pub fn best_ask(&self) -> (r: Option<u64>)
        requires
            self.wf(),
        ensures
            match r {
                None => forall|p: u64| self.spec_orders_at(p, Side::Ask).len() == 0,
                Some(p) => self.spec_orders_at(p, Side::Ask).len() > 0 && forall|q: u64|
                    self.spec_orders_at(q, Side::Ask).len() > 0 ==> p <= q,
            },
    {
        if self.asks.len() == 0 {
            assert forall|p: u64| self.spec_orders_at(p, Side::Ask).len() == 0 by {
                assert(!has_price(self.asks@, p));
            }
            None
        } else {
            let p = self.asks[0].price;
            proof {
                lemma_price_index(self.asks@, 0);
                assert forall|q: u64| self.spec_orders_at(q, Side::Ask).len() > 0 implies p <= q by {
                    assert(has_price(self.asks@, q));
                    let i = price_index(self.asks@, q);
                    assert(0 <= i < self.asks@.len() && self.asks@[i].price == q);
                    if 0 < i {
                        assert(self.asks@[0].price < self.asks@[i].price);
                    }
                }
            }
            Some(p)
        }
    }
}

/// Every resting order is retrievable by id with unchanged attributes, and
/// sits exactly once in the level of its own `(side, price)`: `get` and
/// `orders_at_price` agree on one authoritative record.
pub proof fn lemma_resting_order_sits_once(book: &OrderBook, id: u64)
    requires
        book.wf(),
        book.spec_contains(id),
    ensures
        ({
            let o = book.spec_get(id)->Some_0;
            &&& o.id == id
            &&& appears_exactly_once(book.spec_orders_at(o.price, o.side), o)
        }),
{
    let o = book.spec_get(id)->Some_0;
    let lv = book.side_levels(o.side);
    assert(side_contains(lv, o));
    let (a, b) = choose|a: int, b: int|
        0 <= a < lv.len() && 0 <= b < lv[a].orders@.len() && (#[trigger] lv[a].orders@[b]) == o;
    assert(lv[a].price == o.price);
    lemma_price_index(lv, a);
    let s = book.spec_orders_at(o.price, o.side);
    assert(s == lv[a].orders@);
    assert(s[b] == o);
    assert forall|k2: int| 0 <= k2 < s.len() && k2 != b implies (#[trigger] s[k2]).id != o.id by {
        assert(lv[a].orders@[k2].id != lv[a].orders@[b].id);
    }
    assert(appears_exactly_once(s, o));
}

} // verus!
